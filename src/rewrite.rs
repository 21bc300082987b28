use vstd::prelude::*;
use vstd::string::StringSliceAdditionalSpecFns;
use vstd::utf8::encode_utf8;
use crate::args::{classify_args, classify_spec, ArgRole};
use crate::container::{
    container_id, container_id_spec, lossy_of, lossy_text, path_debug, path_debug_of, CONFIG_FILE,
    DEVCONTAINER_DIR,
};
use crate::fs::{
    files_matching, files_matching_spec, find_dir_up, find_up, lemma_matches_exist, ConfigRecord,
    FindOptions, FsSnapshot,
};
use crate::hex::{hex, hex_spec};
use crate::paths::{
    copy_bytes, last_segment, last_segment_spec, normalize, normalize_spec, parent, parent_spec,
    relative, relative_spec, same_bytes, views, contains_bytes,
};

verus! {

/// The editor that receives the rewritten arguments, as their first element.
pub const EDITOR: &'static str = "code";

/// A directory whose presence ends the upward search: another project's root.
pub const STOP_DIR: &'static str = ".git";

/// The answer of the chooser for a marker directory with several
/// configuration files: the index of the one to use.
pub struct Choice {
    pub marker: Vec<u8>,
    pub index: usize,
}

/// Everything the rewrite reads: the working directory, what is known of the
/// file system, and the choices made.
pub struct Context {
    pub cwd: Vec<u8>,
    pub fs: FsSnapshot,
    pub choices: Vec<Choice>,
}

/// The identifier of a container, its hex encoding, and the project folder
/// inside it.
pub struct DirProperties {
    pub id: String,
    pub hex: String,
    pub folder: String,
}

/// A marker directory has several configuration files and no usable choice
/// among them was made.
pub enum RewriteError {
    NoSelection(Vec<u8>),
}

/// The last choice recorded for `marker`.
pub open spec fn choice_spec(choices: Seq<Choice>, marker: Seq<u8>) -> Option<usize>
    decreases choices.len(),
{
    if choices.len() == 0 {
        None
    } else if choices.last().marker@ == marker {
        Some(choices.last().index)
    } else {
        choice_spec(choices.drop_last(), marker)
    }
}

/// The project root: the directory that holds the marker directory.
pub open spec fn project_root(marker: Seq<u8>) -> Seq<u8> {
    match parent_spec(marker) {
        Some(q) => q,
        None => marker,
    }
}

/// The configuration files of a marker directory.
pub open spec fn config_paths(marker: Seq<u8>, fs: FsSnapshot) -> Seq<Seq<u8>> {
    files_matching_spec(marker, CONFIG_FILE.spec_bytes(), fs)
}

/// The folder inside the container: the one the configuration names, else
/// `/workspaces/` and the last component of the project root.
pub open spec fn folder_spec(rec: ConfigRecord, root: Seq<u8>) -> Seq<char> {
    match rec.workspace_folder {
        Some(w) => w@,
        None => "/workspaces/"@ + lossy_of(last_segment_spec(root)),
    }
}

/// The hex identifier and folder for the configuration `rec` of `marker`.
pub open spec fn props_spec(rec: ConfigRecord, marker: Seq<u8>) -> (Seq<char>, Seq<char>) {
    let root = project_root(marker);
    (
        hex_spec(encode_utf8(container_id_spec(lossy_of(root), lossy_of(rec.file_name@)))),
        folder_spec(rec, root),
    )
}

/// What a marker directory resolves to: nothing without configuration
/// files, the only one, or the chosen one among several; an error (holding
/// the marker) where no valid choice was made.
pub open spec fn resolve_spec(marker: Seq<u8>, ctx: Context) -> Result<
    Option<(Seq<char>, Seq<char>)>,
    Seq<u8>,
> {
    let ps = config_paths(marker, ctx.fs);
    if ps.len() == 0 {
        Ok(None)
    } else if ps.len() == 1 {
        Ok(Some(props_spec(ctx.fs.record_at(ps[0]), marker)))
    } else {
        match choice_spec(ctx.choices@, marker) {
            Some(k) => if k < ps.len() {
                Ok(Some(props_spec(ctx.fs.record_at(ps[k as int]), marker)))
            } else {
                Err(marker)
            },
            None => Err(marker),
        }
    }
}

pub open spec fn opt_props_view(o: Option<DirProperties>) -> Option<(Seq<char>, Seq<char>)> {
    match o {
        Some(p) => Some((p.hex@, p.folder@)),
        None => None,
    }
}

pub open spec fn props_result_view(r: Result<Option<DirProperties>, RewriteError>) -> Result<
    Option<(Seq<char>, Seq<char>)>,
    Seq<u8>,
> {
    match r {
        Ok(o) => Ok(opt_props_view(o)),
        Err(RewriteError::NoSelection(m)) => Err(m@),
    }
}

fn choice_for(choices: &Vec<Choice>, marker: &[u8]) -> (r: Option<usize>)
    ensures
        r == choice_spec(choices@, marker@),
{
    let mut i: usize = choices.len();
    assert(choices@.subrange(0, i as int) =~= choices@);
    while i > 0
        invariant
            i <= choices@.len(),
            choice_spec(choices@, marker@) == choice_spec(choices@.subrange(0, i as int), marker@),
        decreases i,
    {
        let ghost q = choices@.subrange(0, i as int);
        if same_bytes(choices[i - 1].marker.as_slice(), marker) {
            assert(q.last() == choices@[i - 1]);
            return Some(choices[i - 1].index);
        }
        assert(q.drop_last() =~= choices@.subrange(0, i - 1));
        i = i - 1;
    }
    None
}

fn root_of(marker: &[u8]) -> (r: Vec<u8>)
    ensures
        r@ == project_root(marker@),
{
    match parent(marker) {
        Some(q) => q,
        None => copy_bytes(marker),
    }
}

fn props_of(rec: &ConfigRecord, marker: &[u8]) -> (r: DirProperties)
    ensures
        (r.hex@, r.folder@) == props_spec(*rec, marker@),
        r.id@ == container_id_spec(lossy_of(project_root(marker@)), lossy_of(rec.file_name@)),
        r.hex@ == hex_spec(encode_utf8(r.id@)),
{
    let root = root_of(marker);
    let root_text = lossy_text(root.as_slice());
    let chosen_text = lossy_text(rec.file_name.as_slice());
    let id = container_id(root_text.as_str(), chosen_text.as_str());
    let hex = hex(id.as_str().as_bytes());
    let folder = match &rec.workspace_folder {
        Some(w) => w.clone(),
        None => {
            let mut f = String::new();
            f.append("/workspaces/");
            let last = lossy_text(last_segment(root.as_slice()).as_slice());
            f.append(last.as_str());
            f
        },
    };
    DirProperties { id, hex, folder }
}

/// Resolves the marker directory `marker`: finds its configuration files
/// and picks one (the only one, or the recorded choice), then computes the
/// container's hex identifier and the project folder inside it.
pub fn dir_properties(marker: &[u8], ctx: &Context) -> (r: Result<
    Option<DirProperties>,
    RewriteError,
>)
    ensures
        props_result_view(r) == resolve_spec(marker@, *ctx),
        r matches Ok(Some(p)) ==> p.hex@ == hex_spec(encode_utf8(p.id@)),
{
    let ps = files_matching(marker, CONFIG_FILE, &ctx.fs);
    proof {
        lemma_matches_exist(marker@, CONFIG_FILE.spec_bytes(), ctx.fs);
        assert(views(ps@).len() == ps@.len());
    }
    if ps.len() == 0 {
        return Ok(None);
    }
    let k: usize = if ps.len() == 1 {
        0
    } else {
        match choice_for(&ctx.choices, marker) {
            Some(k) => {
                if k < ps.len() {
                    k
                } else {
                    return Err(RewriteError::NoSelection(copy_bytes(marker)));
                }
            },
            None => {
                return Err(RewriteError::NoSelection(copy_bytes(marker)));
            },
        }
    };
    assert(views(ps@)[k as int] == ps@[k as int]@);
    match ctx.fs.file_at(ps[k].as_slice()) {
        Some(rec) => Ok(Some(props_of(rec, marker))),
        None => {
            // Not reached: every match is a known file.
            assert(ctx.fs.has_file_path(views(ps@)[k as int]));
            Ok(None)
        },
    }
}

/// The label that the chooser shows for the configuration `rec` of `marker`.
pub open spec fn label_spec(rec: ConfigRecord, marker: Seq<u8>) -> Seq<char> {
    let name = match rec.name {
        Some(n) => n@,
        None => "<no name>"@,
    };
    name + " ("@ + path_debug_of(lossy_of(relative_spec(rec.file_name@, project_root(marker))))
        + ")"@
}

/// The chooser's labels for the configuration files of `marker`, in the
/// order of `dir_properties`' indices: the name (or a placeholder) and the
/// file's path relative to the project root.
pub fn choice_labels(marker: &[u8], fs: &FsSnapshot) -> (r: Vec<String>)
    ensures
        r@.len() == config_paths(marker@, *fs).len(),
        forall|i: int|
            0 <= i < r@.len() ==> (#[trigger] r@[i])@ == label_spec(
                fs.record_at(config_paths(marker@, *fs)[i]),
                marker@,
            ),
{
    let ps = files_matching(marker, CONFIG_FILE, fs);
    proof {
        lemma_matches_exist(marker@, CONFIG_FILE.spec_bytes(), *fs);
    }
    let ghost cp = config_paths(marker@, *fs);
    let root = root_of(marker);
    let mut r: Vec<String> = Vec::new();
    let mut i: usize = 0;
    while i < ps.len()
        invariant
            i <= ps@.len(),
            views(ps@) == cp,
            cp == config_paths(marker@, *fs),
            root@ == project_root(marker@),
            forall|j: int| 0 <= j < cp.len() ==> fs.has_file_path(#[trigger] cp[j]),
            r@.len() == i,
            forall|j: int|
                0 <= j < i ==> (#[trigger] r@[j])@ == label_spec(fs.record_at(cp[j]), marker@),
        decreases ps@.len() - i,
    {
        assert(cp[i as int] == ps@[i as int]@);
        match fs.file_at(ps[i].as_slice()) {
            Some(rec) => {
                let mut label = String::new();
                match &rec.name {
                    Some(n) => label.append(n.as_str()),
                    None => label.append("<no name>"),
                }
                label.append(" (");
                let rel = lossy_text(relative(rec.file_name.as_slice(), root.as_slice()).as_slice());
                let dbg = path_debug(rel.as_str());
                label.append(dbg.as_str());
                label.append(")");
                r.push(label);
            },
            None => {
                // Not reached: every match is a known file.
                assert(fs.has_file_path(cp[i as int]));
                return r;
            },
        }
        i = i + 1;
    }
    r
}

/// Answers for marker directories already resolved in this run, so that no
/// directory is resolved (nor its chooser asked) twice.
pub struct ResolveCache {
    entries: Vec<(Vec<u8>, Option<DirProperties>)>,
}

impl ResolveCache {
    /// Every entry holds what its marker resolves to, and no marker has two.
    pub closed spec fn wf(&self, ctx: Context) -> bool {
        &&& forall|i: int|
            0 <= i < self.entries@.len() ==> resolve_spec((#[trigger] self.entries@[i]).0@, ctx)
                == Ok::<_, Seq<u8>>(opt_props_view(self.entries@[i].1))
        &&& forall|i: int, j: int|
            0 <= i < j < self.entries@.len() ==> (#[trigger] self.entries@[i]).0@ != (
            #[trigger] self.entries@[j]).0@
    }

    /// The marker directories resolved so far, in the order they were added.
    pub closed spec fn markers(&self) -> Seq<Seq<u8>> {
        self.entries@.map_values(|e: (Vec<u8>, Option<DirProperties>)| e.0@)
    }

    /// A well-formed cache holds each marker directory at most once.
    pub proof fn lemma_markers_distinct(&self, ctx: Context)
        requires
            self.wf(ctx),
        ensures
            self.markers().no_duplicates(),
    {
        assert forall|i: int, j: int|
            0 <= i < self.markers().len() && 0 <= j < self.markers().len() && i != j implies
            self.markers()[i] != self.markers()[j] by {
            if i < j {
                assert(self.entries@[i].0@ != self.entries@[j].0@);
            } else {
                assert(self.entries@[j].0@ != self.entries@[i].0@);
            }
        }
    }

    /// An empty cache.
    pub fn new() -> (r: ResolveCache)
        ensures
            forall|ctx: Context| r.wf(ctx),
            r.markers().len() == 0,
    {
        ResolveCache { entries: Vec::new() }
    }

    fn lookup(&self, marker: &[u8], Ghost(ctx): Ghost<Context>) -> (r: Option<
        Option<(&String, &String)>,
    >)
        requires
            self.wf(ctx),
        ensures
            r matches Some(o) ==> resolve_spec(marker@, ctx) == Ok::<_, Seq<u8>>(
                match o {
                    Some(p) => Some((p.0@, p.1@)),
                    None => None,
                },
            ),
            r is None ==> forall|i: int|
                0 <= i < self.entries@.len() ==> (#[trigger] self.entries@[i]).0@ != marker@,
            r is None <==> !self.markers().contains(marker@),
    {
        let mut i: usize = 0;
        while i < self.entries.len()
            invariant
                self.wf(ctx),
                i <= self.entries@.len(),
                forall|j: int| 0 <= j < i ==> (#[trigger] self.entries@[j]).0@ != marker@,
            decreases self.entries@.len() - i,
        {
            let e = &self.entries[i];
            if same_bytes(e.0.as_slice(), marker) {
                assert(resolve_spec(self.entries@[i as int].0@, ctx) == Ok::<_, Seq<u8>>(
                    opt_props_view(self.entries@[i as int].1),
                ));
                assert(self.markers()[i as int] == marker@);
                return match &e.1 {
                    Some(p) => Some(Some((&p.hex, &p.folder))),
                    None => Some(None),
                };
            }
            i = i + 1;
        }
        assert forall|k: int| 0 <= k < self.markers().len() implies self.markers()[k] != marker@ by {
            assert(self.markers()[k] == self.entries@[k].0@);
        }
        None
    }

    fn insert(&mut self, marker: Vec<u8>, value: Option<DirProperties>, Ghost(ctx): Ghost<Context>)
        requires
            old(self).wf(ctx),
            resolve_spec(marker@, ctx) == Ok::<_, Seq<u8>>(opt_props_view(value)),
            forall|i: int|
                0 <= i < old(self).entries@.len() ==> (#[trigger] old(self).entries@[i]).0@
                    != marker@,
        ensures
            final(self).wf(ctx),
            final(self).markers() == old(self).markers().push(marker@),
    {
        let ghost key = marker@;
        self.entries.push((marker, value));
        assert(self.markers() =~= old(self).markers().push(key));
        assert forall|i: int, j: int|
            0 <= i < j < self.entries@.len() implies (#[trigger] self.entries@[i]).0@ != (
            #[trigger] self.entries@[j]).0@ by {
            if j < old(self).entries@.len() {
                assert(self.entries@[i] == old(self).entries@[i]);
                assert(self.entries@[j] == old(self).entries@[j]);
            } else {
                assert(self.entries@[i] == old(self).entries@[i]);
            }
        }
        assert forall|i: int| 0 <= i < self.entries@.len() implies resolve_spec(
            (#[trigger] self.entries@[i]).0@,
            ctx,
        ) == Ok::<_, Seq<u8>>(opt_props_view(self.entries@[i].1)) by {
            if i < old(self).entries@.len() {
                assert(self.entries@[i] == old(self).entries@[i]);
            }
        }
    }
}

/// The marker directory `dir` that the upward search from the normalized
/// path candidate `arg` finds, stopping at a `.git` directory.
pub open spec fn search_marker(arg: Seq<u8>, dir: Seq<u8>, ctx: Context) -> Option<Seq<u8>> {
    find_up(normalize_spec(arg, ctx.cwd@), dir, Some(STOP_DIR.spec_bytes()), ctx.fs)
}

/// The rewritten argument for a path in a container project: the editor's
/// remote URI flag, for a folder or a file.
pub open spec fn uri_text(is_dir: bool, hex: Seq<char>, folder: Seq<char>, rel: Seq<char>) -> Seq<
    char,
> {
    "--"@ + (if is_dir {
        "folder"@
    } else {
        "file"@
    }) + "-uri=vscode-remote://dev-container+"@ + hex + folder + "/"@ + rel
}

/// What a path candidate becomes: where the upward search from its
/// normalized form finds the marker `dir` (stopping at a `.git` directory)
/// and the marker resolves to a configuration, the remote URI flag;
/// otherwise the argument as it was.
pub open spec fn uri_spec(arg: Seq<u8>, dir: Seq<u8>, ctx: Context) -> Result<Seq<u8>, Seq<u8>> {
    let pth = normalize_spec(arg, ctx.cwd@);
    match search_marker(arg, dir, ctx) {
        None => Ok(arg),
        Some(m) => match resolve_spec(m, ctx) {
            Err(e) => Err(e),
            Ok(None) => Ok(arg),
            Ok(Some(props)) => Ok(
                encode_utf8(
                    uri_text(
                        ctx.fs.has_dir_path(pth),
                        props.0,
                        props.1,
                        lossy_of(relative_spec(pth, project_root(m))),
                    ),
                ),
            ),
        },
    }
}

pub open spec fn bytes_result_view(r: Result<Vec<u8>, RewriteError>) -> Result<Seq<u8>, Seq<u8>> {
    match r {
        Ok(v) => Ok(v@),
        Err(RewriteError::NoSelection(m)) => Err(m@),
    }
}

fn build_uri(is_dir: bool, hex: &String, folder: &String, rel: &[u8]) -> (r: Vec<u8>)
    ensures
        r@ == encode_utf8(uri_text(is_dir, hex@, folder@, lossy_of(rel@))),
{
    let mut s = String::new();
    s.append("--");
    if is_dir {
        s.append("folder");
    } else {
        s.append("file");
    }
    s.append("-uri=vscode-remote://dev-container+");
    s.append(hex.as_str());
    s.append(folder.as_str());
    s.append("/");
    let rel_text = lossy_text(rel);
    s.append(rel_text.as_str());
    copy_bytes(s.as_str().as_bytes())
}

/// Rewrites one path candidate `arg` (see `uri_spec`), resolving each marker
/// directory once and keeping the answer in `cache`.
pub fn to_devcontainer_uri(arg: &[u8], dir: &str, ctx: &Context, cache: &mut ResolveCache) -> (r:
    Result<Vec<u8>, RewriteError>)
    requires
        old(cache).wf(*ctx),
    ensures
        final(cache).wf(*ctx),
        bytes_result_view(r) == uri_spec(arg@, dir.spec_bytes(), *ctx),
        search_marker(arg@, dir.spec_bytes(), *ctx) is None ==> final(cache).markers() == old(
            cache,
        ).markers(),
        search_marker(arg@, dir.spec_bytes(), *ctx) is Some && old(cache).markers().contains(
            search_marker(arg@, dir.spec_bytes(), *ctx)->0,
        ) ==> final(cache).markers() == old(cache).markers(),
        search_marker(arg@, dir.spec_bytes(), *ctx) is Some && !old(cache).markers().contains(
            search_marker(arg@, dir.spec_bytes(), *ctx)->0,
        ) && r is Ok ==> final(cache).markers() == old(cache).markers().push(
            search_marker(arg@, dir.spec_bytes(), *ctx)->0,
        ),
        r is Err ==> final(cache).markers() == old(cache).markers(),
{
    let pth = normalize(arg, ctx.cwd.as_slice());
    let found = find_dir_up(pth.as_slice(), FindOptions { dir, stop: Some(STOP_DIR) }, &ctx.fs);
    let marker = match found {
        None => {
            return Ok(copy_bytes(arg));
        },
        Some(m) => m,
    };
    let root = root_of(marker.as_slice());
    let rel = relative(pth.as_slice(), root.as_slice());
    let is_dir = ctx.fs.is_dir(pth.as_slice());
    match cache.lookup(marker.as_slice(), Ghost(*ctx)) {
        Some(None) => {
            return Ok(copy_bytes(arg));
        },
        Some(Some((h, f))) => {
            return Ok(build_uri(is_dir, h, f, rel.as_slice()));
        },
        None => {},
    }
    let props = dir_properties(marker.as_slice(), ctx);
    match props {
        Err(e) => Err(e),
        Ok(None) => {
            cache.insert(marker, None, Ghost(*ctx));
            Ok(copy_bytes(arg))
        },
        Ok(Some(p)) => {
            let out = build_uri(is_dir, &p.hex, &p.folder, rel.as_slice());
            cache.insert(marker, Some(p), Ghost(*ctx));
            Ok(out)
        },
    }
}

/// The arguments after the program's own name; `.` where there are none,
/// so that the editor opens the current directory.
pub open spec fn effective_args(args: Seq<Seq<u8>>) -> Seq<Seq<u8>> {
    if args.len() <= 1 {
        seq![".".spec_bytes()]
    } else {
        args.subrange(1, args.len() as int)
    }
}

/// What one argument becomes, given its role.
pub open spec fn rewrite_one(a: Seq<u8>, role: ArgRole, ctx: Context) -> Result<Seq<u8>, Seq<u8>> {
    if role == ArgRole::Path {
        uri_spec(a, DEVCONTAINER_DIR.spec_bytes(), ctx)
    } else {
        Ok(a)
    }
}

/// The first `n` arguments rewritten, or the first error among them.
pub open spec fn rewrite_prefix(rest: Seq<Seq<u8>>, roles: Seq<ArgRole>, n: nat, ctx: Context) -> Result<
    Seq<Seq<u8>>,
    Seq<u8>,
>
    decreases n,
{
    if n == 0 {
        Ok(Seq::empty())
    } else {
        match rewrite_prefix(rest, roles, (n - 1) as nat, ctx) {
            Err(e) => Err(e),
            Ok(out) => match rewrite_one(rest[n - 1], roles[n - 1], ctx) {
                Err(e) => Err(e),
                Ok(x) => Ok(out.push(x)),
            },
        }
    }
}

/// The whole rewrite: the editor's name, then each argument after the
/// program's name as its role says.
pub open spec fn process_args_spec(args: Seq<Seq<u8>>, ctx: Context) -> Result<Seq<Seq<u8>>, Seq<u8>> {
    let rest = effective_args(args);
    let roles = classify_spec(rest).1;
    match rewrite_prefix(rest, roles, rest.len(), ctx) {
        Ok(out) => Ok(seq![EDITOR.spec_bytes()] + out),
        Err(e) => Err(e),
    }
}

pub open spec fn args_result_view(r: Result<Vec<Vec<u8>>, RewriteError>) -> Result<
    Seq<Seq<u8>>,
    Seq<u8>,
> {
    match r {
        Ok(v) => Ok(views(v@)),
        Err(RewriteError::NoSelection(m)) => Err(m@),
    }
}

proof fn lemma_error_stays(rest: Seq<Seq<u8>>, roles: Seq<ArgRole>, i: nat, n: nat, ctx: Context)
    requires
        i <= n,
        rewrite_prefix(rest, roles, i, ctx) is Err,
    ensures
        rewrite_prefix(rest, roles, n, ctx) == rewrite_prefix(rest, roles, i, ctx),
    decreases n - i,
{
    if i < n {
        lemma_error_stays(rest, roles, i, (n - 1) as nat, ctx);
    }
}

/// The arguments that are classified and rewritten (see `effective_args`).
pub fn effective(args: &Vec<Vec<u8>>) -> (r: Vec<Vec<u8>>)
    requires
        args@.len() >= 1,
    ensures
        views(r@) == effective_args(views(args@)),
{
    let mut rest: Vec<Vec<u8>> = Vec::new();
    if args.len() == 1 {
        rest.push(copy_bytes(".".as_bytes()));
        assert(views(rest@) =~= seq![".".spec_bytes()]);
        return rest;
    }
    let mut i: usize = 1;
    while i < args.len()
        invariant
            1 <= i <= args@.len(),
            views(rest@) == views(args@).subrange(1, i as int),
        decreases args@.len() - i,
    {
        let ghost before = views(rest@);
        rest.push(copy_bytes(args[i].as_slice()));
        assert(views(rest@) =~= before.push(args@[i as int]@));
        assert(views(args@).subrange(1, i + 1) =~= views(args@).subrange(1, i as int).push(
            views(args@)[i as int],
        ));
        i = i + 1;
    }
    rest
}

/// Rewrites the argument vector `args` (the program's name first) for the
/// editor: flags and their values pass through, and each path candidate in
/// a container project becomes a remote URI flag (see `process_args_spec`).
pub fn process_args(args: &Vec<Vec<u8>>, ctx: &Context) -> (r: Result<Vec<Vec<u8>>, RewriteError>)
    requires
        args@.len() >= 1,
    ensures
        args_result_view(r) == process_args_spec(views(args@), *ctx),
{
    let rest = effective(args);
    let plan = classify_args(&rest);
    let ghost roles = classify_spec(views(rest@)).1;
    let mut out: Vec<Vec<u8>> = Vec::new();
    out.push(copy_bytes(EDITOR.as_bytes()));
    let mut cache = ResolveCache::new();
    let mut i: usize = 0;
    assert(views(out@).subrange(1, 1) =~= Seq::<Seq<u8>>::empty());
    while i < rest.len()
        invariant
            i <= rest@.len(),
            plan.roles@ == roles,
            roles == classify_spec(views(rest@)).1,
            roles.len() == rest@.len(),
            views(rest@) == effective_args(views(args@)),
            cache.wf(*ctx),
            out@.len() == i + 1,
            out@[0]@ == EDITOR.spec_bytes(),
            rewrite_prefix(views(rest@), roles, i as nat, *ctx) == Ok::<_, Seq<u8>>(
                views(out@).subrange(1, i + 1),
            ),
        decreases rest@.len() - i,
    {
        assert(views(rest@)[i as int] == rest@[i as int]@);
        let x = match plan.roles[i] {
            ArgRole::Path => match to_devcontainer_uri(
                rest[i].as_slice(),
                DEVCONTAINER_DIR,
                ctx,
                &mut cache,
            ) {
                Ok(v) => v,
                Err(e) => {
                    proof {
                        lemma_error_stays(views(rest@), roles, (i + 1) as nat, rest@.len() as nat, *ctx);
                    }
                    return Err(e);
                },
            },
            _ => copy_bytes(rest[i].as_slice()),
        };
        let ghost before = views(out@);
        out.push(x);
        assert(views(out@).subrange(1, i + 2) =~= before.subrange(1, i + 1).push(x@));
        i = i + 1;
    }
    assert(views(out@) =~= seq![EDITOR.spec_bytes()] + views(out@).subrange(1, out@.len() as int));
    Ok(out)
}

proof fn lemma_prefix_keeps_non_paths(rest: Seq<Seq<u8>>, roles: Seq<ArgRole>, n: nat, ctx: Context)
    ensures
        rewrite_prefix(rest, roles, n, ctx) matches Ok(out) ==> out.len() == n && forall|j: int|
            0 <= j < n && roles[j] != ArgRole::Path ==> #[trigger] out[j] == rest[j],
    decreases n,
{
    if n > 0 {
        lemma_prefix_keeps_non_paths(rest, roles, (n - 1) as nat, ctx);
        if let Ok(out) = rewrite_prefix(rest, roles, n, ctx) {
            let prev = rewrite_prefix(rest, roles, (n - 1) as nat, ctx)->Ok_0;
            assert forall|j: int| 0 <= j < n && roles[j] != ArgRole::Path implies #[trigger] out[j]
                == rest[j] by {
                if j < n - 1 {
                    assert(out[j] == prev[j]);
                }
            }
        }
    }
}

/// Every argument that the classifier does not take for a path (flags,
/// their values, everything after a terminal word) comes out of the rewrite
/// unchanged and in its place, after the editor's name.
pub proof fn lemma_non_paths_unchanged(args: Seq<Seq<u8>>, ctx: Context)
    ensures
        process_args_spec(args, ctx) matches Ok(out) ==> out.len() == effective_args(args).len()
            + 1 && out[0] == EDITOR.spec_bytes() && forall|j: int|
            0 <= j < effective_args(args).len() && classify_spec(effective_args(args)).1[j]
                != ArgRole::Path ==> #[trigger] out[j + 1] == effective_args(args)[j],
{
    let rest = effective_args(args);
    let roles = classify_spec(rest).1;
    lemma_prefix_keeps_non_paths(rest, roles, rest.len(), ctx);
    if let Ok(out) = process_args_spec(args, ctx) {
        let tail = rewrite_prefix(rest, roles, rest.len(), ctx)->Ok_0;
        assert(out == seq![EDITOR.spec_bytes()] + tail);
        assert forall|j: int|
            0 <= j < rest.len() && roles[j] != ArgRole::Path implies #[trigger] out[j + 1]
                == rest[j] by {
            assert(out[j + 1] == tail[j]);
        }
    }
}

/// The marker directory that the search from the path candidate `a` finds.
pub open spec fn marker_of(a: Seq<u8>, ctx: Context) -> Option<Seq<u8>> {
    find_up(
        normalize_spec(a, ctx.cwd@),
        DEVCONTAINER_DIR.spec_bytes(),
        Some(STOP_DIR.spec_bytes()),
        ctx.fs,
    )
}

/// Whether the argument `a`, in the role `role`, leads to the marker `m`
/// and `m` has several configuration files to choose from.
pub open spec fn leads_to_choice(a: Seq<u8>, role: ArgRole, ctx: Context, m: Seq<u8>) -> bool {
    role == ArgRole::Path && marker_of(a, ctx) == Some(m) && config_paths(m, ctx.fs).len() > 1
}

/// The marker directories for which the chooser must be asked before the
/// rewrite: each one that a path candidate leads to and that has several
/// configuration files, each exactly once. Asking once per element asks
/// at most once per marker directory in a run.
pub fn markers_needing_choice(args: &Vec<Vec<u8>>, ctx: &Context) -> (r: Vec<Vec<u8>>)
    requires
        args@.len() >= 1,
    ensures
        views(r@).no_duplicates(),
        forall|m: Seq<u8>|
            views(r@).contains(m) <==> exists|i: int|
                0 <= i < effective_args(views(args@)).len() && #[trigger] leads_to_choice(
                    effective_args(views(args@))[i],
                    classify_spec(effective_args(views(args@))).1[i],
                    *ctx,
                    m,
                ),
{
    let rest = effective(args);
    let plan = classify_args(&rest);
    let ghost ea = views(rest@);
    let ghost roles = classify_spec(ea).1;
    let mut r: Vec<Vec<u8>> = Vec::new();
    let mut i: usize = 0;
    while i < rest.len()
        invariant
            i <= rest@.len(),
            ea == views(rest@),
            ea == effective_args(views(args@)),
            plan.roles@ == roles,
            roles == classify_spec(ea).1,
            roles.len() == rest@.len(),
            views(r@).no_duplicates(),
            forall|m: Seq<u8>|
                views(r@).contains(m) <==> exists|j: int|
                    0 <= j < i && #[trigger] leads_to_choice(ea[j], roles[j], *ctx, m),
        decreases rest@.len() - i,
    {
        let ghost before = views(r@);
        assert(forall|x: Seq<u8>|
            before.contains(x) <==> exists|j: int|
                0 <= j < i && #[trigger] leads_to_choice(ea[j], roles[j], *ctx, x));
        assert(ea[i as int] == rest@[i as int]@);
        if plan.roles[i] == ArgRole::Path {
            let pth = normalize(rest[i].as_slice(), ctx.cwd.as_slice());
            let found = find_dir_up(
                pth.as_slice(),
                FindOptions { dir: DEVCONTAINER_DIR, stop: Some(STOP_DIR) },
                &ctx.fs,
            );
            match found {
                Some(m) => {
                    let ps = files_matching(m.as_slice(), CONFIG_FILE, &ctx.fs);
                    assert(views(ps@).len() == ps@.len());
                    let ghost mm = m@;
                    if ps.len() > 1 && !contains_bytes(&r, m.as_slice()) {
                        r.push(m);
                        assert(views(r@) =~= before.push(mm));
                        assert forall|x: Seq<u8>| views(r@).contains(x) <==> (before.contains(x)
                            || leads_to_choice(ea[i as int], roles[i as int], *ctx, x)) by {
                            if views(r@).contains(x) && !before.contains(x) {
                                let k = choose|k: int| 0 <= k < views(r@).len() && views(r@)[k] == x;
                                if k < before.len() {
                                    assert(before[k] == x);
                                }
                            }
                            if before.contains(x) {
                                let k = choose|k: int| 0 <= k < before.len() && before[k] == x;
                                assert(views(r@)[k] == x);
                            }
                            if leads_to_choice(ea[i as int], roles[i as int], *ctx, x) {
                                assert(views(r@)[before.len() as int] == x);
                            }
                        }
                    } else {
                        assert forall|x: Seq<u8>| views(r@).contains(x) <==> (before.contains(x)
                            || leads_to_choice(ea[i as int], roles[i as int], *ctx, x)) by {}
                    }
                },
                None => {
                    assert forall|x: Seq<u8>| views(r@).contains(x) <==> (before.contains(x)
                        || leads_to_choice(ea[i as int], roles[i as int], *ctx, x)) by {}
                },
            }
        } else {
            assert forall|x: Seq<u8>| views(r@).contains(x) <==> (before.contains(x)
                || leads_to_choice(ea[i as int], roles[i as int], *ctx, x)) by {}
        }
        assert forall|x: Seq<u8>| views(r@).contains(x) <==> exists|j: int|
            0 <= j < i + 1 && #[trigger] leads_to_choice(ea[j], roles[j], *ctx, x) by {
            if exists|j: int| 0 <= j < i + 1 && #[trigger] leads_to_choice(ea[j], roles[j], *ctx, x) {
                let j = choose|j: int| 0 <= j < i + 1 && #[trigger] leads_to_choice(ea[j], roles[j], *ctx, x);
                if j < i {
                    assert(exists|j: int| 0 <= j < i && #[trigger] leads_to_choice(ea[j], roles[j], *ctx, x));
                    assert(before.contains(x));
                }
                assert(views(r@).contains(x));
            }
            if views(r@).contains(x) {
                if before.contains(x) {
                    let j = choose|j: int| 0 <= j < i && #[trigger] leads_to_choice(ea[j], roles[j], *ctx, x);
                    assert(0 <= j < i + 1);
                } else {
                    assert(leads_to_choice(ea[i as int], roles[i as int], *ctx, x));
                }
            }
        }
        i = i + 1;
    }
    r
}

} // verus!

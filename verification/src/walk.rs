//! The bounded-depth directory walker: ignore rules, entry classification,
//! and the walk over a filesystem snapshot tree. The walk is pure; the
//! surrounding daemon builds the snapshot from disk and ingests what the
//! walk emits.

use vstd::prelude::*;

verus! {

use vstd::string::StrSliceExecFns;
use crate::MAX_DEPTH;
use crate::desktop::{parse_desktop, spec_desktop_icon, spec_desktop_name};
use crate::records::duplicate_opt_string;
use crate::text::{
    chars_match_at, chars_of, contains_at, eq_ignore_ascii_case, extension_of, lower_matches,
    spec_extension, str_eq,
};

/// The ignore rule `node_modules/.+` holds at position `i`: the literal
/// `node_modules/` followed by at least one character other than a newline.
pub open spec fn node_modules_match_at(s: Seq<char>, i: int) -> bool {
    &&& contains_at(s, "node_modules/"@, i)
    &&& i + "node_modules/"@.len() < s.len()
    &&& s[i + "node_modules/"@.len()] != '\n'
}

/// The ignore rule `/\..+` holds at position `i`: a slash, a dot, then at
/// least one character other than a newline.
pub open spec fn dot_match_at(s: Seq<char>, i: int) -> bool {
    &&& 0 <= i
    &&& i + 2 < s.len()
    &&& s[i] == '/'
    &&& s[i + 1] == '.'
    &&& s[i + 2] != '\n'
}

/// A directory path the walker prunes: one of the two ignore rules matches
/// somewhere in the path.
pub open spec fn spec_ignored_dir(s: Seq<char>) -> bool {
    (exists|i: int| node_modules_match_at(s, i)) || (exists|i: int| dot_match_at(s, i))
}

/// Whether the ignore rules prune a directory with this path.
pub fn is_ignored_dir(path: &str) -> (r: bool)
    ensures
        r == spec_ignored_dir(path@),
{
    let v = chars_of(path);
    let nm = chars_of("node_modules/");
    let n = v.len();
    let m = nm.len();
    let mut i: usize = 0;
    while i < n
        invariant
            i <= n,
            n == v@.len(),
            v@ == path@,
            nm@ == "node_modules/"@,
            m == nm@.len(),
            forall|j: int| 0 <= j < i ==> !node_modules_match_at(path@, j),
            forall|j: int| 0 <= j < i ==> !dot_match_at(path@, j),
        decreases n - i,
    {
        if m < n - i && chars_match_at(&v, &nm, i) {
            if v[i + m] != '\n' {
                proof {
                    assert(node_modules_match_at(path@, i as int));
                }
                return true;
            }
        }
        if n - i > 2 && v[i] == '/' && v[i + 1] == '.' && v[i + 2] != '\n' {
            proof {
                assert(dot_match_at(path@, i as int));
            }
            return true;
        }
        proof {
            if node_modules_match_at(path@, i as int) {
                assert(i + m < n);
                assert(contains_at(path@, "node_modules/"@, i as int));
                assert(path@.subrange(i as int, i + m) == nm@);
                assert(false);
            }
        }
        i = i + 1;
    }
    proof {
        assert forall|j: int| !node_modules_match_at(path@, j) by {
            if 0 <= j < n {
            } else {
                assert(!contains_at(path@, "node_modules/"@, j) || !(j + m < n)) by {
                    if j >= n {
                        assert(!(j + "node_modules/"@.len() < path@.len()));
                    }
                }
            }
        }
        assert(forall|j: int| !dot_match_at(path@, j));
    }
    false
}

/// The extensions treated as binary and never indexed, compared
/// ASCII-case-insensitively.
pub open spec fn spec_is_binary_ext(e: Seq<char>) -> bool {
    ||| lower_matches(e, "exe"@)
    ||| lower_matches(e, "bin"@)
    ||| lower_matches(e, "o"@)
    ||| lower_matches(e, "dll"@)
    ||| lower_matches(e, "so"@)
    ||| lower_matches(e, "dat"@)
    ||| lower_matches(e, "class"@)
}

/// A path with a binary extension.
pub open spec fn spec_is_binary_file(p: Seq<char>) -> bool {
    match spec_extension(p) {
        Some(e) => spec_is_binary_ext(e),
        None => false,
    }
}

/// Whether the path carries one of the binary extensions the walker skips.
pub fn is_binary_file(path: &str) -> (r: bool)
    ensures
        r == spec_is_binary_file(path@),
{
    match extension_of(path) {
        Some(e) => {
            let ev = chars_of(e.as_str());
            eq_ignore_ascii_case(&ev, "exe") || eq_ignore_ascii_case(&ev, "bin")
                || eq_ignore_ascii_case(&ev, "o") || eq_ignore_ascii_case(&ev, "dll")
                || eq_ignore_ascii_case(&ev, "so") || eq_ignore_ascii_case(&ev, "dat")
                || eq_ignore_ascii_case(&ev, "class")
        },
        None => false,
    }
}

/// A file mode with any of the owner/group/other execute bits set.
pub fn mode_is_executable(mode: u32) -> (r: bool)
    ensures
        r == (mode & 0o111 != 0),
{
    mode & 0o111 != 0
}

/// The application-descriptor extension, compared exactly.
pub open spec fn spec_has_desktop_ext(p: Seq<char>) -> bool {
    spec_extension(p) == Some("desktop"@)
}

/// Whether the path names an application descriptor.
pub fn has_desktop_ext(path: &str) -> (r: bool)
    ensures
        r == spec_has_desktop_ext(path@),
{
    match extension_of(path) {
        Some(e) => str_eq(e.as_str(), "desktop"),
        None => false,
    }
}

/// One node of a filesystem snapshot handed to the walker. A file of
/// descriptor extension carries its text when it was readable.
pub enum FsNode {
    Dir { name: String, path: String, children: Vec<FsNode> },
    File { name: String, path: String, executable: bool, content: Option<String> },
    Symlink { name: String, path: String, target_executable: bool },
    Other { name: String, path: String },
}

/// The node's own file name.
pub open spec fn node_name(n: FsNode) -> Seq<char> {
    match n {
        FsNode::Dir { name, .. } => name@,
        FsNode::File { name, .. } => name@,
        FsNode::Symlink { name, .. } => name@,
        FsNode::Other { name, .. } => name@,
    }
}

/// The node's absolute path.
pub open spec fn node_path(n: FsNode) -> Seq<char> {
    match n {
        FsNode::Dir { path, .. } => path@,
        FsNode::File { path, .. } => path@,
        FsNode::Symlink { path, .. } => path@,
        FsNode::Other { path, .. } => path@,
    }
}

/// What the walk emits for one indexed file, in mathematical form.
pub struct ItemModel {
    pub name: Seq<char>,
    pub path: Seq<char>,
    pub depth: int,
    pub last_accessed: int,
    pub executable: bool,
    pub desktop: bool,
    pub icon_key: Option<Seq<char>>,
}

/// What the walk emits for one indexed file: the fields of a store row,
/// plus the icon key still to be resolved for a desktop entry.
pub struct WalkItem {
    pub name: String,
    pub path: String,
    pub depth: usize,
    pub last_accessed: i64,
    pub executable: bool,
    pub desktop: bool,
    pub icon_key: Option<String>,
}

impl View for WalkItem {
    type V = ItemModel;

    open spec fn view(&self) -> ItemModel {
        ItemModel {
            name: self.name@,
            path: self.path@,
            depth: self.depth as int,
            last_accessed: self.last_accessed as int,
            executable: self.executable,
            desktop: self.desktop,
            icon_key: match self.icon_key {
                Some(k) => Some(k@),
                None => None,
            },
        }
    }
}

/// The emitted items, as models.
pub open spec fn items_view(v: Seq<WalkItem>) -> Seq<ItemModel> {
    v.map_values(|w: WalkItem| w@)
}

/// Display name and icon key of a file, once descriptor parsing has been
/// applied: a readable descriptor with a non-empty parsed name supplies the
/// name, the basename is the fallback; the icon key is kept only when the
/// descriptor supplied a name at all.
pub open spec fn spec_display(name: Seq<char>, content: Option<Seq<char>>) -> (
    Seq<char>,
    Option<Seq<char>>,
) {
    match content {
        None => (name, None),
        Some(c) => match spec_desktop_name(c) {
            None => (name, None),
            Some(v) => ((if v.len() > 0 {
                v
            } else {
                name
            }), spec_desktop_icon(c)),
        },
    }
}

/// The view of an optional text.
pub open spec fn opt_view(c: Option<String>) -> Option<Seq<char>> {
    match c {
        Some(s) => Some(s@),
        None => None,
    }
}

/// The item emitted for a regular file.
pub open spec fn spec_file_item(
    name: Seq<char>,
    path: Seq<char>,
    executable: bool,
    content: Option<Seq<char>>,
    depth: int,
    now: i64,
) -> ItemModel {
    if spec_has_desktop_ext(path) {
        let d = spec_display(name, content);
        ItemModel {
            name: d.0,
            path: path,
            depth: depth,
            last_accessed: now as int,
            executable: executable,
            desktop: true,
            icon_key: d.1,
        }
    } else {
        ItemModel {
            name: name,
            path: path,
            depth: depth,
            last_accessed: now as int,
            executable: executable,
            desktop: false,
            icon_key: None,
        }
    }
}

/// The item emitted for a symlink whose target is executable.
pub open spec fn spec_link_item(name: Seq<char>, path: Seq<char>, depth: int, now: i64)
    -> ItemModel {
    ItemModel {
        name: name,
        path: path,
        depth: depth,
        last_accessed: now as int,
        executable: true,
        desktop: false,
        icon_key: None,
    }
}

/// The walk of one node: a directory within the depth bound walks its
/// children; anything else emits nothing here.
pub open spec fn spec_walk(n: FsNode, depth: int, now: i64) -> Seq<ItemModel>
    decreases n, 1int,
{
    if depth > MAX_DEPTH as int {
        Seq::<ItemModel>::empty()
    } else {
        match n {
            FsNode::Dir { children, .. } => spec_walk_children(children@, depth, now),
            _ => Seq::<ItemModel>::empty(),
        }
    }
}

/// The walk of a directory's children, in listing order.
pub open spec fn spec_walk_children(cs: Seq<FsNode>, depth: int, now: i64) -> Seq<ItemModel>
    decreases cs, 0int,
{
    if cs.len() == 0 {
        Seq::<ItemModel>::empty()
    } else {
        spec_step(cs[0], depth, now) + spec_walk_children(cs.drop_first(), depth, now)
    }
}

/// What one directory child contributes: a non-ignored directory is walked
/// one level deeper; a regular file without a binary extension is emitted;
/// a symlink with an executable target is emitted; everything else is
/// skipped.
pub open spec fn spec_step(c: FsNode, depth: int, now: i64) -> Seq<ItemModel>
    decreases c, 2int,
{
    match c {
        FsNode::Dir { path, .. } => if !spec_ignored_dir(path@) {
            spec_walk(c, depth + 1, now)
        } else {
            Seq::<ItemModel>::empty()
        },
        FsNode::File { name, path, executable, content } => if !spec_is_binary_file(path@) {
            seq![
                spec_file_item(name@, path@, executable, opt_view(content), depth, now),
            ]
        } else {
            Seq::<ItemModel>::empty()
        },
        FsNode::Symlink { name, path, target_executable } => if target_executable {
            seq![spec_link_item(name@, path@, depth, now)]
        } else {
            Seq::<ItemModel>::empty()
        },
        FsNode::Other { .. } => Seq::<ItemModel>::empty(),
    }
}

/// Builds the emitted item for a regular file.
pub fn make_file_item(
    name: &String,
    path: &String,
    executable: bool,
    content: &Option<String>,
    depth: usize,
    now: i64,
) -> (r: WalkItem)
    ensures
        r@ == spec_file_item(name@, path@, executable, opt_view(*content), depth as int, now),
{
    let is_desktop = has_desktop_ext(path.as_str());
    let mut out_name: String = name.clone();
    let mut icon_key: Option<String> = None;
    if is_desktop {
        match content {
            Some(text) => {
                let info = parse_desktop(text.as_str());
                match info.name {
                    Some(v) => {
                        if !v.as_str().is_empty() {
                            out_name = v;
                        }
                        icon_key = info.icon_key;
                    },
                    None => {},
                }
            },
            None => {},
        }
    }
    WalkItem {
        name: out_name,
        path: path.clone(),
        depth: depth,
        last_accessed: now,
        executable: executable,
        desktop: is_desktop,
        icon_key: icon_key,
    }
}

/// Walks one node of the snapshot, emitting the indexed items in listing
/// order; `depth` is the node's distance from the walk root.
pub fn walk(n: &FsNode, depth: usize, now: i64) -> (r: Vec<WalkItem>)
    ensures
        items_view(r@) == spec_walk(*n, depth as int, now),
    decreases *n, 1int,
{
    let mut out: Vec<WalkItem> = Vec::new();
    if depth > MAX_DEPTH {
        proof {
            assert(items_view(out@) =~= spec_walk(*n, depth as int, now));
        }
        return out;
    }
    match n {
        FsNode::Dir { children, .. } => {
            let m = children.len();
            let mut i: usize = 0;
            proof {
                assert(children@.skip(0) =~= children@);
                assert(items_view(out@) + spec_walk_children(children@.skip(0), depth as int, now)
                    =~= spec_walk_children(children@, depth as int, now));
            }
            while i < m
                invariant
                    i <= m,
                    m == children@.len(),
                    depth <= MAX_DEPTH,
                    *n is Dir,
                    n->Dir_children == *children,
                    spec_walk_children(children@, depth as int, now) =~= items_view(out@)
                        + spec_walk_children(children@.skip(i as int), depth as int, now),
                decreases m - i,
            {
                proof {
                    let tail = children@.skip(i as int);
                    assert(tail[0] == children@[i as int]);
                    assert(tail.drop_first() =~= children@.skip(i + 1));
                    assert(*n is Dir);
                    assert(n->Dir_children == *children);
                    assert(decreases_to!(*n => n->Dir_children));
                    assert(decreases_to!(n->Dir_children => n->Dir_children@));
                    assert(decreases_to!(n->Dir_children@ => n->Dir_children@[i as int]));
                    assert(decreases_to!(*n => n->Dir_children@[i as int]));
                }
                let piece = step_child(&children[i], depth, now);
                let ghost old_out = out@;
                let ghost piece_v = piece@;
                append_items(&mut out, piece);
                proof {
                    assert(items_view(old_out + piece_v) =~= items_view(old_out) + items_view(
                        piece_v,
                    ));
                    assert(spec_walk_children(children@, depth as int, now) =~= items_view(out@)
                        + spec_walk_children(children@.skip(i + 1), depth as int, now));
                }
                i = i + 1;
            }
            proof {
                assert(children@.skip(m as int) =~= Seq::<FsNode>::empty());
                assert(items_view(out@) + Seq::<ItemModel>::empty() =~= items_view(out@));
            }
            out
        },
        _ => {
            proof {
                assert(items_view(out@) =~= spec_walk(*n, depth as int, now));
            }
            out
        },
    }
}

/// Appends every item of `src` to `dst`.
fn append_items(dst: &mut Vec<WalkItem>, src: Vec<WalkItem>)
    ensures
        final(dst)@ == old(dst)@ + src@,
{
    let mut src = src;
    let n = src.len();
    let ghost src0 = src@;
    let mut i: usize = 0;
    proof {
        assert(dst@ =~= old(dst)@ + src0.subrange(0, 0));
    }
    while i < n
        invariant
            i <= n,
            n == src0.len(),
            src@ == src0,
            dst@ =~= old(dst)@ + src0.subrange(0, i as int),
        decreases n - i,
    {
        let item = duplicate_item(&src[i]);
        proof {
            assert(src0[i as int] == src@[i as int]);
        }
        dst.push(item);
        proof {
            assert(dst@ =~= old(dst)@ + src0.subrange(0, i + 1));
        }
        i = i + 1;
    }
    proof {
        assert(src0.subrange(0, n as int) =~= src0);
    }
}

/// Copies a walk item, preserving every field.
fn duplicate_item(w: &WalkItem) -> (r: WalkItem)
    ensures
        r == *w,
{
    WalkItem {
        name: w.name.clone(),
        path: w.path.clone(),
        depth: w.depth,
        last_accessed: w.last_accessed,
        executable: w.executable,
        desktop: w.desktop,
        icon_key: duplicate_opt_string(&w.icon_key),
    }
}

/// Emits what one directory child contributes at the given depth.
fn step_child(c: &FsNode, depth: usize, now: i64) -> (r: Vec<WalkItem>)
    requires
        depth <= MAX_DEPTH,
    ensures
        items_view(r@) == spec_step(*c, depth as int, now),
    decreases *c, 2int,
{
    let mut out: Vec<WalkItem> = Vec::new();
    match c {
        FsNode::Dir { path, .. } => {
            if !is_ignored_dir(path.as_str()) {
                let r = walk(c, depth + 1, now);
                proof {
                    assert(items_view(r@) == spec_step(*c, depth as int, now));
                }
                return r;
            }
            proof {
                assert(items_view(out@) =~= spec_step(*c, depth as int, now));
            }
            out
        },
        FsNode::File { name, path, executable, content } => {
            if !is_binary_file(path.as_str()) {
                let item = make_file_item(name, path, *executable, content, depth, now);
                out.push(item);
                proof {
                    assert(items_view(out@) =~= spec_step(*c, depth as int, now));
                }
            } else {
                proof {
                    assert(items_view(out@) =~= spec_step(*c, depth as int, now));
                }
            }
            out
        },
        FsNode::Symlink { name, path, target_executable } => {
            if *target_executable {
                let item = WalkItem {
                    name: name.clone(),
                    path: path.clone(),
                    depth: depth,
                    last_accessed: now,
                    executable: true,
                    desktop: false,
                    icon_key: None,
                };
                out.push(item);
                proof {
                    assert(items_view(out@) =~= spec_step(*c, depth as int, now));
                }
            } else {
                proof {
                    assert(items_view(out@) =~= spec_step(*c, depth as int, now));
                }
            }
            out
        },
        FsNode::Other { .. } => {
            proof {
                assert(items_view(out@) =~= spec_step(*c, depth as int, now));
            }
            out
        },
    }
}

/// The default walk roots: the user's home, the two application-descriptor
/// locations, then every directory on the executable search path.
pub open spec fn spec_roots(home: Seq<char>, path_var: Option<Seq<char>>) -> Seq<Seq<char>> {
    let base = seq![
        home,
        "/usr/share/applications/"@,
        "/usr/local/share/applications/"@,
    ];
    match path_var {
        Some(pv) => base + crate::text::spec_split(pv, ':'),
        None => base,
    }
}

/// Enumerates the default walk roots from the home directory and the
/// executable search path variable, when the latter is set.
pub fn search_roots(home: &str, path_var: Option<&str>) -> (r: Vec<String>)
    ensures
        r.deep_view() == spec_roots(
            home@,
            match path_var {
                Some(p) => Some(p@),
                None => None,
            },
        ),
{
    let mut r: Vec<String> = Vec::new();
    r.push(home.to_owned());
    r.push("/usr/share/applications/".to_owned());
    r.push("/usr/local/share/applications/".to_owned());
    let ghost base = seq![
        home@,
        "/usr/share/applications/"@,
        "/usr/local/share/applications/"@,
    ];
    proof {
        assert(r.deep_view() =~= base);
    }
    match path_var {
        Some(pv) => {
            let mut pieces = crate::text::split_char(pv, ':');
            let n = pieces.len();
            let mut i: usize = 0;
            proof {
                assert(r.deep_view() =~= base + pieces.deep_view().subrange(0, 0));
            }
            while i < n
                invariant
                    i <= n,
                    n == pieces@.len(),
                    pieces.deep_view() == crate::text::spec_split(pv@, ':'),
                    r.deep_view() =~= base + pieces.deep_view().subrange(0, i as int),
                decreases n - i,
            {
                let ghost old_r = r.deep_view();
                r.push(pieces[i].clone());
                proof {
                    assert(r.deep_view() =~= old_r.push(pieces.deep_view()[i as int]));
                    assert(r.deep_view() =~= base + pieces.deep_view().subrange(0, i + 1));
                }
                i = i + 1;
            }
            proof {
                assert(pieces.deep_view().subrange(0, n as int) =~= pieces.deep_view());
            }
            r
        },
        None => r,
    }
}

/// Every emitted entry sits within the depth bound: an item produced by a
/// walk started at `depth` carries a depth between `depth` and `MAX_DEPTH`.
pub proof fn lemma_walk_depth_bounds(n: FsNode, depth: int, now: i64)
    ensures
        forall|k: int|
            0 <= k < spec_walk(n, depth, now).len() ==> depth <= (
            #[trigger] spec_walk(n, depth, now)[k]).depth <= MAX_DEPTH as int,
    decreases n, 1int,
{
    if depth > MAX_DEPTH as int {
    } else {
        match n {
            FsNode::Dir { children, .. } => {
                lemma_walk_children_depth_bounds(children@, depth, now);
            },
            _ => {},
        }
    }
}

/// Depth bound for a children walk.
pub proof fn lemma_walk_children_depth_bounds(cs: Seq<FsNode>, depth: int, now: i64)
    requires
        depth <= MAX_DEPTH as int,
    ensures
        forall|k: int|
            0 <= k < spec_walk_children(cs, depth, now).len() ==> depth <= (
            #[trigger] spec_walk_children(cs, depth, now)[k]).depth <= MAX_DEPTH as int,
    decreases cs, 0int,
{
    if cs.len() == 0 {
    } else {
        lemma_step_depth_bounds(cs[0], depth, now);
        lemma_walk_children_depth_bounds(cs.drop_first(), depth, now);
        assert forall|k: int| 0 <= k < spec_walk_children(cs, depth, now).len() implies depth <= (
            #[trigger] spec_walk_children(cs, depth, now)[k]).depth <= MAX_DEPTH as int by {
            let head = spec_step(cs[0], depth, now);
            let rest = spec_walk_children(cs.drop_first(), depth, now);
            if k < head.len() {
                assert(spec_walk_children(cs, depth, now)[k] == head[k]);
            } else {
                assert(spec_walk_children(cs, depth, now)[k] == rest[k - head.len()]);
            }
        }
    }
}

/// Depth bound for one child's contribution.
pub proof fn lemma_step_depth_bounds(c: FsNode, depth: int, now: i64)
    requires
        depth <= MAX_DEPTH as int,
    ensures
        forall|k: int|
            0 <= k < spec_step(c, depth, now).len() ==> depth <= (
            #[trigger] spec_step(c, depth, now)[k]).depth <= MAX_DEPTH as int,
    decreases c, 2int,
{
    match c {
        FsNode::Dir { path, .. } => {
            if !spec_ignored_dir(path@) {
                lemma_walk_depth_bounds(c, depth + 1, now);
                assert forall|k: int| 0 <= k < spec_step(c, depth, now).len() implies depth <= (
                    #[trigger] spec_step(c, depth, now)[k]).depth <= MAX_DEPTH as int by {
                    assert(spec_step(c, depth, now)[k] == spec_walk(c, depth + 1, now)[k]);
                }
            }
        },
        _ => {},
    }
}

/// A usable file name: non-empty, without a path separator.
pub open spec fn name_ok(s: Seq<char>) -> bool {
    s.len() > 0 && forall|k: int| 0 <= k < s.len() ==> s[k] != '/'
}

/// A well-formed snapshot: every directory's children have pairwise
/// distinct, separator-free names, and each child's path is its parent's
/// path, a separator, and its own name.
pub open spec fn tree_wf(n: FsNode) -> bool
    decreases n, 1int,
{
    match n {
        FsNode::Dir { children, .. } => {
            &&& (forall|i: int, j: int|
                0 <= i < j < children@.len() ==> node_name(#[trigger] children@[i]) != node_name(
                    #[trigger] children@[j],
                ))
            &&& children_wf(node_path(n), children@)
        },
        _ => true,
    }
}

/// Well-formedness of a children list under a parent path.
pub open spec fn children_wf(parent: Seq<char>, cs: Seq<FsNode>) -> bool
    decreases cs, 0int,
{
    if cs.len() == 0 {
        true
    } else {
        &&& name_ok(node_name(cs[0]))
        &&& node_path(cs[0]) == parent + "/"@ + node_name(cs[0])
        &&& child_wf(cs[0])
        &&& children_wf(parent, cs.drop_first())
    }
}

/// Well-formedness of one child's own subtree.
pub open spec fn child_wf(c: FsNode) -> bool
    decreases c, 2int,
{
    tree_wf(c)
}

/// `d` lies strictly inside `n`'s subtree.
pub open spec fn strict_below(n: FsNode, d: FsNode) -> bool
    decreases n, 1int,
{
    match n {
        FsNode::Dir { children, .. } => exists|i: int|
            0 <= i < children@.len() && below_child(#[trigger] children@[i], d),
        _ => false,
    }
}

/// `d` is this child or lies inside it.
pub open spec fn below_child(c: FsNode, d: FsNode) -> bool
    decreases c, 2int,
{
    c == d || strict_below(c, d)
}

/// The facts `children_wf` grants about any member.
pub proof fn lemma_children_wf_member(parent: Seq<char>, cs: Seq<FsNode>, i: int)
    requires
        children_wf(parent, cs),
        0 <= i < cs.len(),
    ensures
        name_ok(node_name(cs[i])),
        node_path(cs[i]) == parent + "/"@ + node_name(cs[i]),
        tree_wf(cs[i]),
    decreases i,
{
    reveal_strlit("/");
    if i > 0 {
        lemma_children_wf_member(parent, cs.drop_first(), i - 1);
        assert(cs.drop_first()[i - 1] == cs[i]);
    } else {
        assert(child_wf(cs[0]));
        assert(child_wf(cs[0]) == tree_wf(cs[0]));
    }
}

/// `p` continues `base` at a segment boundary: it equals `base`, or extends
/// it with a separator.
pub open spec fn path_extends(p: Seq<char>, base: Seq<char>) -> bool {
    base.is_prefix_of(p) && (p.len() == base.len() || p[base.len() as int] == '/')
}

/// Every item a walk emits has the walked directory's path, a separator,
/// and more as its path.
pub proof fn lemma_walk_paths(n: FsNode, depth: int, now: i64)
    requires
        tree_wf(n),
    ensures
        forall|k: int|
            0 <= k < spec_walk(n, depth, now).len() ==> (node_path(n) + "/"@).is_prefix_of(
                (#[trigger] spec_walk(n, depth, now)[k]).path,
            ),
    decreases n, 1int,
{
    reveal_strlit("/");
    if depth > MAX_DEPTH as int {
    } else {
        match n {
            FsNode::Dir { children, .. } => {
                lemma_children_paths(node_path(n), children@, depth, now);
            },
            _ => {},
        }
    }
}

/// Path form of the items a children walk emits.
pub proof fn lemma_children_paths(parent: Seq<char>, cs: Seq<FsNode>, depth: int, now: i64)
    requires
        children_wf(parent, cs),
    ensures
        forall|k: int|
            0 <= k < spec_walk_children(cs, depth, now).len() ==> (parent + "/"@).is_prefix_of(
                (#[trigger] spec_walk_children(cs, depth, now)[k]).path,
            ),
    decreases cs, 0int,
{
    reveal_strlit("/");
    if cs.len() == 0 {
    } else {
        let c = cs[0];
        let a = node_name(c);
        assert(child_wf(c) == tree_wf(c));
        lemma_step_paths(c, depth, now);
        lemma_children_paths(parent, cs.drop_first(), depth, now);
        assert forall|k: int| 0 <= k < spec_walk_children(cs, depth, now).len() implies (parent
            + "/"@).is_prefix_of((#[trigger] spec_walk_children(cs, depth, now)[k]).path) by {
            let head = spec_step(c, depth, now);
            let rest = spec_walk_children(cs.drop_first(), depth, now);
            if k < head.len() {
                assert(spec_walk_children(cs, depth, now)[k] == head[k]);
                let p = head[k].path;
                assert(path_extends(p, node_path(c)));
                crate::text::lemma_prefix_extend(parent + "/"@, a);
                assert(parent + "/"@ + a == node_path(c));
                crate::text::lemma_prefix_trans(parent + "/"@, node_path(c), p);
            } else {
                assert(spec_walk_children(cs, depth, now)[k] == rest[k - head.len()]);
            }
        }
    }
}

/// Every item one child contributes continues the child's path at a
/// segment boundary.
pub proof fn lemma_step_paths(c: FsNode, depth: int, now: i64)
    requires
        tree_wf(c),
    ensures
        forall|k: int|
            0 <= k < spec_step(c, depth, now).len() ==> path_extends(
                (#[trigger] spec_step(c, depth, now)[k]).path,
                node_path(c),
            ),
    decreases c, 2int,
{
    reveal_strlit("/");
    match c {
        FsNode::Dir { path, .. } => {
            if !spec_ignored_dir(path@) {
                lemma_walk_paths(c, depth + 1, now);
                assert forall|k: int| 0 <= k < spec_step(c, depth, now).len() implies path_extends(
                    (#[trigger] spec_step(c, depth, now)[k]).path,
                    node_path(c),
                ) by {
                    let p = spec_walk(c, depth + 1, now)[k].path;
                    assert(spec_step(c, depth, now)[k] == spec_walk(c, depth + 1, now)[k]);
                    let base = node_path(c);
                    crate::text::lemma_prefix_index(base + "/"@, p);
                    crate::text::lemma_prefix_extend(base, "/"@);
                    crate::text::lemma_prefix_trans(base, base + "/"@, p);
                    assert(p[base.len() as int] == (base + "/"@)[base.len() as int]);
                }
            }
        },
        FsNode::File { path, .. } => {
            assert forall|k: int| 0 <= k < spec_step(c, depth, now).len() implies path_extends(
                (#[trigger] spec_step(c, depth, now)[k]).path,
                node_path(c),
            ) by {
                assert(spec_step(c, depth, now)[k].path == path@);
                assert(path@.is_prefix_of(path@)) by {
                    assert(path@ =~= path@.subrange(0, path@.len() as int));
                }
            }
        },
        FsNode::Symlink { path, .. } => {
            assert forall|k: int| 0 <= k < spec_step(c, depth, now).len() implies path_extends(
                (#[trigger] spec_step(c, depth, now)[k]).path,
                node_path(c),
            ) by {
                assert(spec_step(c, depth, now)[k].path == path@);
                assert(path@.is_prefix_of(path@)) by {
                    assert(path@ =~= path@.subrange(0, path@.len() as int));
                }
            }
        },
        FsNode::Other { .. } => {},
    }
}

/// A strict descendant's path continues its ancestor's path and a
/// separator.
pub proof fn lemma_below_path(n: FsNode, d: FsNode)
    requires
        tree_wf(n),
        strict_below(n, d),
    ensures
        (node_path(n) + "/"@).is_prefix_of(node_path(d)),
    decreases n,
{
    reveal_strlit("/");
    match n {
        FsNode::Dir { children, .. } => {
            let i = choose|i: int|
                0 <= i < children@.len() && below_child(#[trigger] children@[i], d);
            let c = children@[i];
            lemma_children_wf_member(node_path(n), children@, i);
            if c == d {
                crate::text::lemma_prefix_extend(node_path(n) + "/"@, node_name(c));
                assert(node_path(n) + "/"@ + node_name(c) == node_path(d));
            } else {
                assert(decreases_to!(n => children@[i])) by {
                    assert(decreases_to!(n => n->Dir_children));
                    assert(decreases_to!(n->Dir_children => n->Dir_children@));
                    assert(decreases_to!(n->Dir_children@ => n->Dir_children@[i]));
                }
                lemma_below_path(c, d);
                crate::text::lemma_prefix_extend(node_path(n) + "/"@, node_name(c));
                crate::text::lemma_prefix_extend(node_path(c), "/"@);
                crate::text::lemma_prefix_trans(
                    node_path(n) + "/"@,
                    node_path(c),
                    node_path(c) + "/"@,
                );
                crate::text::lemma_prefix_trans(
                    node_path(n) + "/"@,
                    node_path(c) + "/"@,
                    node_path(d),
                );
            }
        },
        _ => {},
    }
}

/// Two distinct separator-free segments cannot both follow `parent/` on
/// the way to the same path: a path continuing `parent/a` at a boundary is
/// never below a directory whose path continues `parent/b` at a boundary.
pub proof fn lemma_segment_disjoint(
    parent: Seq<char>,
    a: Seq<char>,
    b: Seq<char>,
    dpath: Seq<char>,
    p: Seq<char>,
)
    requires
        name_ok(a),
        name_ok(b),
        a != b,
        path_extends(p, parent + "/"@ + a),
        (parent + "/"@ + b).is_prefix_of(dpath),
        dpath.len() == parent.len() + 1 + b.len() || dpath[parent.len() + 1 + b.len() as int] == '/',
    ensures
        !((dpath + "/"@).is_prefix_of(p)),
{
    reveal_strlit("/");
    let pl = parent.len() as int;
    let la = a.len() as int;
    let lb = b.len() as int;
    crate::text::lemma_prefix_index(parent + "/"@ + a, p);
    crate::text::lemma_prefix_index(parent + "/"@ + b, dpath);
    if (dpath + "/"@).is_prefix_of(p) {
        crate::text::lemma_prefix_index(dpath + "/"@, p);
        assert(forall|k: int| 0 <= k < la ==> p[pl + 1 + k] == a[k]);
        assert(forall|k: int| 0 <= k < lb ==> dpath[pl + 1 + k] == b[k]);
        if la == lb {
            assert forall|k: int| 0 <= k < la implies a[k] == b[k] by {
                assert(p[pl + 1 + k] == (dpath + "/"@)[pl + 1 + k]);
            }
            assert(a =~= b);
        } else if la < lb {
            assert(dpath.len() >= pl + 1 + lb);
            if p.len() == pl + 1 + la {
                assert((dpath + "/"@).len() > p.len());
            } else {
                assert(p[pl + 1 + la] == '/');
                assert(p[pl + 1 + la] == (dpath + "/"@)[pl + 1 + la]);
                assert((dpath + "/"@)[pl + 1 + la] == dpath[pl + 1 + la]);
                assert(dpath[pl + 1 + la] == b[la]);
                assert(b[la] != '/');
            }
        } else {
            assert(p[pl + 1 + lb] == a[lb]);
            assert(a[lb] != '/');
            if dpath.len() == pl + 1 + lb {
                assert((dpath + "/"@)[pl + 1 + lb] == '/');
                assert(p[pl + 1 + lb] == (dpath + "/"@)[pl + 1 + lb]);
            } else {
                assert(dpath[pl + 1 + lb] == '/');
                assert(p[pl + 1 + lb] == (dpath + "/"@)[pl + 1 + lb]);
                assert((dpath + "/"@)[pl + 1 + lb] == dpath[pl + 1 + lb]);
            }
        }
    }
}

/// Nothing below an ignored directory is indexed: when a directory `d`
/// anywhere inside the walked snapshot has a path the ignore rules match,
/// no emitted item's path lies below `d`.
pub proof fn lemma_walk_skips_ignored(n: FsNode, d: FsNode, depth: int, now: i64)
    requires
        tree_wf(n),
        strict_below(n, d),
        d is Dir,
        spec_ignored_dir(node_path(d)),
    ensures
        forall|k: int|
            0 <= k < spec_walk(n, depth, now).len() ==> !((node_path(d) + "/"@).is_prefix_of(
                (#[trigger] spec_walk(n, depth, now)[k]).path,
            )),
    decreases n, 1int,
{
    reveal_strlit("/");
    if depth > MAX_DEPTH as int {
    } else {
        match n {
            FsNode::Dir { children, .. } => {
                let parent = node_path(n);
                let j = choose|j: int|
                    0 <= j < children@.len() && below_child(#[trigger] children@[j], d);
                let cj = children@[j];
                let bname = node_name(cj);
                lemma_children_wf_member(parent, children@, j);
                if cj == d {
                    crate::text::lemma_prefix_extend(parent + "/"@ + bname, Seq::<char>::empty());
                    assert((parent + "/"@ + bname) + Seq::<char>::empty() =~= parent + "/"@
                        + bname);
                    assert((parent + "/"@ + bname).is_prefix_of(node_path(d)));
                    assert(node_path(d).len() == parent.len() + 1 + bname.len());
                } else {
                    assert(decreases_to!(n => children@[j])) by {
                        assert(decreases_to!(n => n->Dir_children));
                        assert(decreases_to!(n->Dir_children => n->Dir_children@));
                        assert(decreases_to!(n->Dir_children@ => n->Dir_children@[j]));
                    }
                    lemma_below_path(cj, d);
                    crate::text::lemma_prefix_index(node_path(cj) + "/"@, node_path(d));
                    crate::text::lemma_prefix_extend(node_path(cj), "/"@);
                    crate::text::lemma_prefix_trans(
                        node_path(cj),
                        node_path(cj) + "/"@,
                        node_path(d),
                    );
                    assert(node_path(d)[parent.len() + 1 + bname.len() as int] == (node_path(cj)
                        + "/"@)[node_path(cj).len() as int]);
                }
                assert forall|i: int|
                    0 <= i < children@.len() && node_name(#[trigger] children@[i])
                        == bname implies below_child(children@[i], d) by {
                    if i != j {
                        assert(node_name(children@[i]) != node_name(children@[j]));
                    }
                }
                lemma_children_avoid(children@, parent, depth, now, d, bname);
            },
            _ => {},
        }
    }
}

/// The children-walk form of [`lemma_walk_skips_ignored`]: `bname` is the
/// sibling segment `d`'s path continues, and any child carrying that name
/// holds `d`.
proof fn lemma_children_avoid(
    cs: Seq<FsNode>,
    parent: Seq<char>,
    depth: int,
    now: i64,
    d: FsNode,
    bname: Seq<char>,
)
    requires
        children_wf(parent, cs),
        d is Dir,
        spec_ignored_dir(node_path(d)),
        name_ok(bname),
        (parent + "/"@ + bname).is_prefix_of(node_path(d)),
        node_path(d).len() == parent.len() + 1 + bname.len() || node_path(d)[parent.len() + 1
            + bname.len() as int] == '/',
        forall|i: int|
            0 <= i < cs.len() && node_name(#[trigger] cs[i]) == bname ==> below_child(cs[i], d),
    ensures
        forall|k: int|
            0 <= k < spec_walk_children(cs, depth, now).len() ==> !((node_path(d)
                + "/"@).is_prefix_of(
                (#[trigger] spec_walk_children(cs, depth, now)[k]).path,
            )),
    decreases cs, 0int,
{
    reveal_strlit("/");
    if cs.len() == 0 {
    } else {
        let c = cs[0];
        assert(child_wf(c) == tree_wf(c));
        lemma_step_avoid(c, parent, depth, now, d, bname);
        assert(forall|i: int|
            0 <= i < cs.drop_first().len() && node_name(#[trigger] cs.drop_first()[i])
                == bname ==> below_child(cs.drop_first()[i], d));
        lemma_children_avoid(cs.drop_first(), parent, depth, now, d, bname);
        assert forall|k: int| 0 <= k < spec_walk_children(cs, depth, now).len() implies !((
        node_path(d) + "/"@).is_prefix_of(
            (#[trigger] spec_walk_children(cs, depth, now)[k]).path,
        )) by {
            let head = spec_step(c, depth, now);
            let rest = spec_walk_children(cs.drop_first(), depth, now);
            if k < head.len() {
                assert(spec_walk_children(cs, depth, now)[k] == head[k]);
            } else {
                assert(spec_walk_children(cs, depth, now)[k] == rest[k - head.len()]);
            }
        }
    }
}

/// The single-child form of [`lemma_walk_skips_ignored`].
proof fn lemma_step_avoid(
    c: FsNode,
    parent: Seq<char>,
    depth: int,
    now: i64,
    d: FsNode,
    bname: Seq<char>,
)
    requires
        name_ok(node_name(c)),
        node_path(c) == parent + "/"@ + node_name(c),
        tree_wf(c),
        d is Dir,
        spec_ignored_dir(node_path(d)),
        name_ok(bname),
        (parent + "/"@ + bname).is_prefix_of(node_path(d)),
        node_path(d).len() == parent.len() + 1 + bname.len() || node_path(d)[parent.len() + 1
            + bname.len() as int] == '/',
        node_name(c) == bname ==> below_child(c, d),
    ensures
        forall|k: int|
            0 <= k < spec_step(c, depth, now).len() ==> !((node_path(d) + "/"@).is_prefix_of(
                (#[trigger] spec_step(c, depth, now)[k]).path,
            )),
    decreases c, 2int,
{
    reveal_strlit("/");
    let items = spec_step(c, depth, now);
    if node_name(c) == bname {
        match c {
            FsNode::Dir { path, .. } => {
                if !spec_ignored_dir(path@) {
                    assert(c != d);
                    assert(strict_below(c, d));
                    lemma_walk_skips_ignored(c, d, depth + 1, now);
                    assert forall|k: int| 0 <= k < items.len() implies !((node_path(d)
                        + "/"@).is_prefix_of((#[trigger] items[k]).path)) by {
                        assert(items[k] == spec_walk(c, depth + 1, now)[k]);
                    }
                }
            },
            _ => {
                assert(c != d);
                assert(!strict_below(c, d));
                assert(false);
            },
        }
    } else {
        lemma_step_paths(c, depth, now);
        assert forall|k: int| 0 <= k < items.len() implies !((node_path(d) + "/"@).is_prefix_of(
            (#[trigger] items[k]).path,
        )) by {
            assert(path_extends(items[k].path, node_path(c)));
            lemma_segment_disjoint(parent, node_name(c), bname, node_path(d), items[k].path);
        }
    }
}

/// An application descriptor with a non-empty `Name=` value names its entry:
/// the emitted item for a desktop-extension file whose text parses to the
/// non-empty name `v` carries exactly `v` as its display name, and the
/// parsed icon key.
pub proof fn lemma_desktop_name_stored(
    name: Seq<char>,
    path: Seq<char>,
    executable: bool,
    content: Seq<char>,
    depth: int,
    now: i64,
    v: Seq<char>,
)
    requires
        spec_has_desktop_ext(path),
        spec_desktop_name(content) == Some(v),
        v.len() > 0,
    ensures
        spec_file_item(name, path, executable, Some(content), depth, now).name == v,
        spec_file_item(name, path, executable, Some(content), depth, now).icon_key
            == spec_desktop_icon(content),
{
}

} // verus!

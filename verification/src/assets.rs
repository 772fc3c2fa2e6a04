//! Pack files (`.ez2pack`): one zip holding a project and copies of the
//! assets it uses, under `assets/…` names.

use vstd::prelude::*;
use crate::text::{chars_of, str_eq, ascii_lowercase, to_ascii_lowercase, push_char};
use crate::store::{file_name, name_start, mem_prefix};
use crate::naming::{numbered, lemma_taken_numbered, make_numbered};
use crate::export::path_extension;
use crate::paths::{slash_components, part_names, rooted, slash_names, portable_path, plain_file_path, extension_in_name, last_part, lemma_single_name, is_plain_char};
use vstd::string::StringSliceAdditionalSpecFns;
use crate::store::{MemStore, insert};
use crate::zipio::{MAX_FILE_BYTES, file_len, files_fit, zip_out_open, MAX_NAME_BYTES, fits_zip_name, lemma_plain_name_fits, archive_reads_back, file_names, zip_listing, zip_source, zip_file_opens, zip_file_data, stays_enclosed, names_folder, ZipEntry, ZipOut, zip_out_files, zip_archive, writes_of, zip_out_new, zip_out_start, zip_out_write, zip_out_finish, zip_open, zip_len, zip_entry_head, zip_entry_data, Compression};
use zip::result::ZipError;

verus! {

/// File extension of packs.
pub const PACK_EXTENSION: &'static str = "ez2pack";

/// Name of the project file inside a pack.
pub const PACK_PROJECT: &'static str = "project.ez2.json";

/// Whether a file extension is the pack extension (case does not matter).
pub open spec fn is_pack_extension(ext: Option<Seq<char>>) -> bool {
    ext matches Some(e) && ascii_lowercase(e) == PACK_EXTENSION@
}

/// True if `ext` is the pack extension, in any case.
pub fn is_pack_ext(ext: Option<&str>) -> (b: bool)
    ensures
        b == is_pack_extension(
            match ext {
                Some(e) => Some(e@),
                None => None,
            },
        ),
{
    match ext {
        Some(e) => {
            let l = to_ascii_lowercase(e);
            str_eq(l.as_str(), PACK_EXTENSION)
        },
        None => false,
    }
}

/// True if `path` names a pack, by its extension (what counts as the
/// extension follows the platform's path syntax: for a portable path to a
/// file it is what follows the last `.` of the file name, unless that `.`
/// starts the name).
pub fn is_pack(path: &str) -> (b: bool)
    ensures
        plain_file_path(path@) ==> b == is_pack_extension(extension_in_name(last_part(path@))),
        !path@.contains('.') ==> !b,
{
    let ext = path_extension(path);
    match &ext {
        Some(e) => is_pack_ext(Some(e.as_str())),
        None => false,
    }
}

/// One component of a path.
#[derive(Debug)]
pub enum PathPart {
    /// A drive or share prefix (Windows).
    Prefix,
    /// The root: a leading separator.
    RootDir,
    /// `.`
    CurDir,
    /// `..`
    ParentDir,
    /// A file or folder name.
    Normal(String),
}

/// The components of a path, as `std::path::Path::components` finds them
/// (the separators depend on the platform). In a portable path the names
/// are the pieces between its `/` other than empty pieces, `.` and `..`.
#[verifier::external_body]
fn path_parts(path: &str) -> (parts: Vec<PathPart>)
    ensures
        forall|i: int| 0 <= i < parts@.len() ==> (#[trigger] parts@[i] matches PathPart::Normal(s) ==> !s@.contains('/')),
        portable_path(path@) ==> normal_names(parts@) == slash_names(path@),
{
    std::path::Path::new(path)
        .components()
        .map(|c| match c {
            std::path::Component::Prefix(_) => PathPart::Prefix,
            std::path::Component::RootDir => PathPart::RootDir,
            std::path::Component::CurDir => PathPart::CurDir,
            std::path::Component::ParentDir => PathPart::ParentDir,
            std::path::Component::Normal(s) => PathPart::Normal(s.to_string_lossy().to_string()),
        })
        .collect()
}

/// The names among `parts`, in order.
pub open spec fn normal_names(parts: Seq<PathPart>) -> Seq<Seq<char>>
    decreases parts.len(),
{
    if parts.len() == 0 {
        Seq::empty()
    } else {
        let rest = normal_names(parts.drop_last());
        match parts.last() {
            PathPart::Normal(s) => rest.push(s@),
            _ => rest,
        }
    }
}

/// `names` joined with `/`.
pub open spec fn joined(names: Seq<Seq<char>>) -> Seq<char>
    decreases names.len(),
{
    if names.len() == 0 {
        Seq::empty()
    } else if names.len() == 1 {
        names[0]
    } else {
        joined(names.drop_last()) + seq!['/'] + names.last()
    }
}

fn push_str(s: &mut String, t: &str)
    ensures
        final(s)@ == old(s)@ + t@,
{
    let cs: Vec<char> = chars_of(t);
    let mut i: usize = 0;
    let ghost base = s@;
    while i < cs.len()
        invariant
            cs@ == t@,
            i <= cs@.len(),
            s@ == base + cs@.take(i as int),
        decreases cs@.len() - i,
    {
        push_char(s, cs[i]);
        i += 1;
        assert(s@ =~= base + cs@.take(i as int));
    }
    assert(cs@.take(cs@.len() as int) =~= cs@);
}

/// The names among `parts` joined with `/`.
pub fn slash_join(parts: &Vec<PathPart>) -> (r: String)
    ensures
        r@ == joined(normal_names(parts@)),
{
    let mut r: String = String::new();
    let mut count: usize = 0;
    let mut i: usize = 0;
    while i < parts.len()
        invariant
            i <= parts@.len(),
            count <= i,
            count == normal_names(parts@.take(i as int)).len(),
            r@ == joined(normal_names(parts@.take(i as int))),
        decreases parts@.len() - i,
    {
        proof {
            assert(parts@.take(i as int + 1).drop_last() =~= parts@.take(i as int));
            assert(parts@.take(i as int + 1).last() == parts@[i as int]);
        }
        let ghost names = normal_names(parts@.take(i as int));
        match &parts[i] {
            PathPart::Normal(s) => {
                if count > 0 {
                    push_char(&mut r, '/');
                }
                push_str(&mut r, s.as_str());
                count += 1;
                proof {
                    let after = names.push(s@);
                    assert(after.drop_last() =~= names);
                    if names.len() == 0 {
                        assert(r@ =~= joined(after));
                    } else {
                        assert(r@ =~= joined(after));
                    }
                }
            },
            _ => {},
        }
        i += 1;
    }
    assert(parts@.take(parts@.len() as int) =~= parts@);
    r
}

/// `path` with `/` between its names (roots, `.` and `..` dropped; what
/// separates names follows the platform's path syntax).
pub fn to_slash(path: &str) -> (r: String)
    ensures
        portable_path(path@) ==> r@ == joined(slash_names(path@)),
{
    let parts = path_parts(path);
    slash_join(&parts)
}

/// `std::path::Path::strip_prefix`: what follows `base` in `path`, taken
/// component by component, as text (`to_string_lossy`), when the
/// components of `base` start those of `path`. For portable paths the
/// components are those of [`slash_components`]; the rest starts at a
/// component (separators and `.` before it are dropped), so it holds the
/// remaining names and is portable too.
#[verifier::external_body]
fn path_strip_prefix(path: &str, base: &str) -> (r: Option<String>)
    ensures
        portable_path(path@) && portable_path(base@) ==> (r is Some <==> inside_folder(path@, base@)),
        portable_path(path@) && portable_path(base@) ==> (r matches Some(rest) ==> portable_path(rest@)
            && slash_names(rest@) == part_names(slash_components(path@).skip(slash_components(base@).len() as int))),
{
    std::path::Path::new(path).strip_prefix(base).ok().map(|r| r.to_string_lossy().to_string())
}

/// Whether the components of `base` start those of `path`.
pub open spec fn inside_folder(path: Seq<char>, base: Seq<char>) -> bool {
    let pc = slash_components(path);
    let bc = slash_components(base);
    bc.len() <= pc.len() && pc.take(bc.len() as int) == bc
}

/// Where `path` lies inside the folder `base`, as names joined with `/`:
/// nothing when the components of `base` do not start those of `path`.
pub open spec fn relative_in(path: Seq<char>, base: Seq<char>) -> Option<Seq<char>> {
    if inside_folder(path, base) {
        Some(joined(part_names(slash_components(path).skip(slash_components(base).len() as int))))
    } else {
        None
    }
}

/// An asset path made relative to the project folder `base`, for saving:
/// what follows `base` in it, in `/` form, when it lies inside `base`.
/// (What counts as a component follows the platform's path syntax.)
pub fn relative_to(path: &str, base: &str) -> (r: Option<String>)
    ensures
        portable_path(path@) && portable_path(base@) ==> opt_view(r) == relative_in(path@, base@),
{
    match path_strip_prefix(path, base) {
        Some(rest) => Some(to_slash(rest.as_str())),
        None => None,
    }
}

/// Make the asset paths inside the project folder `base` relative to it
/// (for saving); paths outside it stay as they are.
pub fn make_paths_relative(paths: &mut Vec<String>, base: &str)
    ensures
        final(paths)@.len() == old(paths)@.len(),
        forall|i: int| 0 <= i < old(paths)@.len() && portable_path(#[trigger] old(paths)@[i]@) && portable_path(base@)
            ==> final(paths)@[i]@ == (match relative_in(old(paths)@[i]@, base@) {
                Some(rel) => rel,
                None => old(paths)@[i]@,
            }),
{
    let mut i: usize = 0;
    while i < paths.len()
        invariant
            i <= paths@.len(),
            paths@.len() == old(paths)@.len(),
            forall|j: int| i <= j < paths@.len() ==> paths@[j] == old(paths)@[j],
            forall|j: int| 0 <= j < i && portable_path(#[trigger] old(paths)@[j]@) && portable_path(base@)
                ==> paths@[j]@ == (match relative_in(old(paths)@[j]@, base@) {
                    Some(rel) => rel,
                    None => old(paths)@[j]@,
                }),
        decreases paths@.len() - i,
    {
        match relative_to(paths[i].as_str(), base) {
            Some(rel) => {
                paths.set(i, rel);
            },
            None => {},
        }
        i += 1;
    }
}

/// `std::path::Path::is_relative`. Whether a path starting with `/` is
/// relative depends on the platform (it is on Windows, without a drive);
/// a portable path that does not start with `/` is relative everywhere.
#[verifier::external_body]
fn path_is_relative(path: &str) -> (b: bool)
    ensures
        portable_path(path@) && !rooted(path@) ==> b,
{
    std::path::Path::new(path).is_relative()
}

/// `std::path::Path::join`, as text: for a portable relative `path` after
/// a portable `base`, `path` follows `base`, with the platform's separator
/// (`/` or `\`) between them unless `base` is empty or ends with `/`.
/// Joined to a portable `base`, `path` always comes last, as it is
/// (`PathBuf::push` appends it after keeping, cutting or dropping what came
/// before); a path starting with `/` replaces all of a portable `base`,
/// which has no drive to keep.
#[verifier::external_body]
fn path_join(base: &str, path: &str) -> (r: String)
    ensures
        portable_path(base@) ==> exists|x: Seq<char>| r@ == x + path@,
        portable_path(base@) && rooted(path@) ==> r@ == path@,
        portable_path(base@) && portable_path(path@) && !rooted(path@) && path@.len() > 0 ==> (
            if base@.len() == 0 || base@.last() == '/' {
                r@ == base@ + path@
            } else {
                exists|c: char| (c == '/' || c == '\\') && r@ == base@.push(c) + path@
            }
        ),
{
    std::path::Path::new(base).join(path).to_string_lossy().to_string()
}

/// An asset path read from a project file in the folder `base`: a
/// relative path is joined to `base`; an empty or absolute one stays as it
/// is. Whatever the platform, a path starting with `/` comes back as it
/// is, and every path comes back at the end of the result.
pub fn resolve_path(path: &str, base: &str) -> (r: String)
    ensures
        path@.len() == 0 ==> r@ == path@,
        portable_path(base@) && rooted(path@) ==> r@ == path@,
        portable_path(base@) ==> exists|x: Seq<char>| r@ == x + path@,
        portable_path(base@) && portable_path(path@) && !rooted(path@) && path@.len() > 0 ==> (
            if base@.len() == 0 || base@.last() == '/' {
                r@ == base@ + path@
            } else {
                exists|c: char| (c == '/' || c == '\\') && r@ == base@.push(c) + path@
            }
        ),
{
    if path.is_empty() {
        let r = path.to_string();
        assert(r@ == Seq::<char>::empty() + path@);
        return r;
    }
    if path_is_relative(path) {
        path_join(base, path)
    } else {
        let r = path.to_string();
        assert(r@ == Seq::<char>::empty() + path@);
        r
    }
}

/// Turn the relative asset paths of a project in the folder `base` into
/// paths that include it (after loading).
pub fn resolve_paths(paths: &mut Vec<String>, base: &str)
    ensures
        final(paths)@.len() == old(paths)@.len(),
        forall|i: int| 0 <= i < old(paths)@.len() ==> {
            let p = #[trigger] old(paths)@[i]@;
            &&& p.len() == 0 ==> final(paths)@[i]@ == p
            &&& portable_path(base@) && rooted(p) ==> final(paths)@[i]@ == p
            &&& portable_path(base@) && portable_path(p) && !rooted(p) && p.len() > 0 ==> (
                if base@.len() == 0 || base@.last() == '/' {
                    final(paths)@[i]@ == base@ + p
                } else {
                    exists|c: char| (c == '/' || c == '\\') && final(paths)@[i]@ == base@.push(c) + p
                }
            )
        },
{
    let mut i: usize = 0;
    while i < paths.len()
        invariant
            i <= paths@.len(),
            paths@.len() == old(paths)@.len(),
            forall|j: int| i <= j < paths@.len() ==> paths@[j] == old(paths)@[j],
            forall|j: int| 0 <= j < i ==> {
                let p = #[trigger] old(paths)@[j]@;
                &&& p.len() == 0 ==> paths@[j]@ == p
                &&& portable_path(base@) && rooted(p) ==> paths@[j]@ == p
                &&& portable_path(base@) && portable_path(p) && !rooted(p) && p.len() > 0 ==> (
                    if base@.len() == 0 || base@.last() == '/' {
                        paths@[j]@ == base@ + p
                    } else {
                        exists|c: char| (c == '/' || c == '\\') && paths@[j]@ == base@.push(c) + p
                    }
                )
            },
        decreases paths@.len() - i,
    {
        let r = resolve_path(paths[i].as_str(), base);
        paths.set(i, r);
        i += 1;
    }
}

/// Result of packing: which assets could not be found (they are left out).
pub struct PackReport {
    pub packed: usize,
    pub missing: Vec<String>,
}

impl Default for PackReport {
    fn default() -> (r: Self)
        ensures
            r.packed == 0,
            r.missing@.len() == 0,
    {
        PackReport { packed: 0, missing: Vec::new() }
    }
}


/// `assets/`, the folder of the copied assets inside a pack.
pub open spec fn assets_prefix() -> Seq<char> {
    seq!['a', 's', 's', 'e', 't', 's', '/']
}

/// The file name part of a path.
pub open spec fn file_name_of(path: Seq<char>) -> Seq<char> {
    path.subrange(name_start(path) as int, path.len() as int)
}

/// The pack entries so far: (name inside the pack, source path).
pub open spec fn entry_views(es: Seq<(String, String)>) -> Seq<(Seq<char>, Seq<char>)> {
    es.map_values(|e: (String, String)| (e.0@, e.1@))
}

/// The characters of each string.
pub open spec fn string_views(v: Seq<String>) -> Seq<Seq<char>> {
    v.map_values(|s: String| s@)
}

/// Whether an entry already copies `src`.
pub open spec fn has_source(entries: Seq<(Seq<char>, Seq<char>)>, src: Seq<char>) -> bool {
    exists|j: int| 0 <= j < entries.len() && entries[j].1 == src
}

/// The name of the entry that copies `src` (sources are copied once).
pub open spec fn name_for_source(entries: Seq<(Seq<char>, Seq<char>)>, src: Seq<char>) -> Seq<char> {
    entries[choose|j: int| 0 <= j < entries.len() && entries[j].1 == src].0
}

/// Whether an entry already has the name `name`.
pub open spec fn name_taken(entries: Seq<(Seq<char>, Seq<char>)>, name: Seq<char>) -> bool {
    exists|j: int| 0 <= j < entries.len() && entries[j].0 == name
}

/// The first free attempt for an entry named after `file`.
pub open spec fn first_free(entries: Seq<(Seq<char>, Seq<char>)>, file: Seq<char>) -> nat {
    choose|n: nat|
        !name_taken(entries, numbered(assets_prefix(), file, n))
        && forall|m: nat| m < n ==> name_taken(entries, #[trigger] numbered(assets_prefix(), file, m))
}

/// How a pack is laid out: each asset path as the packed project will
/// hold it, the entries to copy, and the paths that could not be found.
pub struct PackPlan {
    pub renamed: Vec<String>,
    pub entries: Vec<(String, String)>,
    pub missing: Vec<String>,
}

/// One asset path taken into the plan `st`. Empty paths stay as they are;
/// a path already copied gets the same entry; a path that cannot be found
/// is reported missing and left as it is; any other path gets a new entry
/// `assets/<file name>` (or `assets/2_<file name>`, … when taken).
pub open spec fn plan_step(
    st: (Seq<Seq<char>>, Seq<(Seq<char>, Seq<char>)>, Seq<Seq<char>>),
    path: Seq<char>,
    present: bool,
) -> (Seq<Seq<char>>, Seq<(Seq<char>, Seq<char>)>, Seq<Seq<char>>) {
    let (renamed, entries, missing) = st;
    if path.len() == 0 {
        (renamed.push(path), entries, missing)
    } else if has_source(entries, path) {
        (renamed.push(name_for_source(entries, path)), entries, missing)
    } else if !present {
        (renamed.push(path), entries, missing.push(path))
    } else {
        let file = file_name_of(path);
        let name = numbered(assets_prefix(), file, first_free(entries, file));
        (renamed.push(name), entries.push((name, path)), missing)
    }
}

/// The plan for the first `n` asset paths (`present` tells which can be
/// read).
pub open spec fn plan_of(paths: Seq<Seq<char>>, present: Seq<bool>, n: nat) -> (
    Seq<Seq<char>>,
    Seq<(Seq<char>, Seq<char>)>,
    Seq<Seq<char>>,
)
    decreases n,
{
    if n == 0 {
        (Seq::empty(), Seq::empty(), Seq::empty())
    } else {
        plan_step(plan_of(paths, present, (n - 1) as nat), paths[n - 1], present[n - 1])
    }
}

/// No two entries share a name or a source.
pub open spec fn entries_distinct(entries: Seq<(Seq<char>, Seq<char>)>) -> bool {
    forall|i: int, j: int| 0 <= i < j < entries.len() ==> entries[i].0 != entries[j].0 && entries[i].1 != entries[j].1
}

/// The first free attempt exists and is the least one.
proof fn lemma_first_free(entries: Seq<(Seq<char>, Seq<char>)>, file: Seq<char>, n: nat)
    requires
        !name_taken(entries, numbered(assets_prefix(), file, n)),
        forall|m: nat| m < n ==> name_taken(entries, #[trigger] numbered(assets_prefix(), file, m)),
    ensures
        first_free(entries, file) == n,
{
    let f = first_free(entries, file);
    assert(!name_taken(entries, numbered(assets_prefix(), file, f))
        && forall|m: nat| m < f ==> name_taken(entries, #[trigger] numbered(assets_prefix(), file, m)));
    if f < n {
        assert(name_taken(entries, numbered(assets_prefix(), file, f)));
    } else if f > n {
        assert(name_taken(entries, numbered(assets_prefix(), file, n)));
    }
}

/// Each step keeps entry names and sources distinct, and only adds.
proof fn lemma_plan_step(
    st: (Seq<Seq<char>>, Seq<(Seq<char>, Seq<char>)>, Seq<Seq<char>>),
    path: Seq<char>,
    present: bool,
)
    requires
        entries_distinct(st.1),
    ensures
        entries_distinct(plan_step(st, path, present).1),
        plan_step(st, path, present).0.len() == st.0.len() + 1,
{
    let (renamed, entries, missing) = st;
    if path.len() > 0 && !has_source(entries, path) && present {
        let file = file_name_of(path);
        let names = entries.map_values(|e: (Seq<char>, Seq<char>)| e.0).to_set();
        vstd::seq_lib::seq_to_set_is_finite(entries.map_values(|e: (Seq<char>, Seq<char>)| e.0));
        // Some attempt is free: the taken names are finitely many.
        let bound = (names.len() + 1) as nat;
        if forall|m: nat| m < bound ==> name_taken(entries, #[trigger] numbered(assets_prefix(), file, m)) {
            assert forall|m: nat| m < bound implies names.contains(#[trigger] numbered(assets_prefix(), file, m)) by {
                assert(name_taken(entries, numbered(assets_prefix(), file, m)));
                let j = choose|j: int| 0 <= j < entries.len() && entries[j].0 == numbered(assets_prefix(), file, m);
                assert(entries.map_values(|e: (Seq<char>, Seq<char>)| e.0)[j] == numbered(assets_prefix(), file, m));
            }
            lemma_taken_numbered(names, assets_prefix(), file, bound);
        }
        let free = choose|m: nat| m < bound && !name_taken(entries, #[trigger] numbered(assets_prefix(), file, m));
        lemma_least_free(entries, file, free);
        let name = numbered(assets_prefix(), file, first_free(entries, file));
        assert(!name_taken(entries, name));
        let e2 = entries.push((name, path));
        assert forall|i: int, j: int| 0 <= i < j < e2.len() implies e2[i].0 != e2[j].0 && e2[i].1 != e2[j].1 by {
            if j == entries.len() {
                assert(e2[i] == entries[i]);
            }
        }
    }
}

/// If some attempt is free, the first free one is well defined.
proof fn lemma_least_free(entries: Seq<(Seq<char>, Seq<char>)>, file: Seq<char>, k: nat)
    requires
        !name_taken(entries, numbered(assets_prefix(), file, k)),
    ensures
        !name_taken(entries, numbered(assets_prefix(), file, first_free(entries, file))),
        forall|m: nat| m < first_free(entries, file) ==> name_taken(entries, #[trigger] numbered(assets_prefix(), file, m)),
    decreases k,
{
    if exists|m: nat| m < k && !name_taken(entries, #[trigger] numbered(assets_prefix(), file, m)) {
        let m = choose|m: nat| m < k && !name_taken(entries, #[trigger] numbered(assets_prefix(), file, m));
        lemma_least_free(entries, file, m);
    } else {
        lemma_first_free(entries, file, k);
    }
}

/// Every plan has distinct entry names and sources, and one path out for
/// each path in.
pub proof fn lemma_plan_of(paths: Seq<Seq<char>>, present: Seq<bool>, n: nat)
    requires
        n <= paths.len(),
        n <= present.len(),
    ensures
        entries_distinct(plan_of(paths, present, n).1),
        plan_of(paths, present, n).0.len() == n,
    decreases n,
{
    if n > 0 {
        lemma_plan_of(paths, present, (n - 1) as nat);
        lemma_plan_step(plan_of(paths, present, (n - 1) as nat), paths[n - 1], present[n - 1]);
    }
}

/// Index of the entry that copies `src`.
fn find_source(entries: &Vec<(String, String)>, src: &str) -> (r: Option<usize>)
    ensures
        match r {
            Some(j) => j < entries@.len() && entries@[j as int].1@ == src@,
            None => forall|j: int| 0 <= j < entries@.len() ==> entries@[j].1@ != src@,
        },
{
    let mut j: usize = 0;
    while j < entries.len()
        invariant
            j <= entries@.len(),
            forall|k: int| 0 <= k < j ==> entries@[k].1@ != src@,
        decreases entries@.len() - j,
    {
        if str_eq(entries[j].1.as_str(), src) {
            return Some(j);
        }
        j += 1;
    }
    None
}

/// Whether an entry is named `name`.
fn name_in(entries: &Vec<(String, String)>, name: &str) -> (b: bool)
    ensures
        b == name_taken(entry_views(entries@), name@),
{
    let mut j: usize = 0;
    while j < entries.len()
        invariant
            j <= entries@.len(),
            forall|k: int| 0 <= k < j ==> entries@[k].0@ != name@,
        decreases entries@.len() - j,
    {
        if str_eq(entries[j].0.as_str(), name) {
            assert(entry_views(entries@)[j as int].0 == name@);
            return true;
        }
        j += 1;
    }
    proof {
        if name_taken(entry_views(entries@), name@) {
            let k = choose|k: int| 0 <= k < entries@.len() && entry_views(entries@)[k].0 == name@;
            assert(entries@[k].0@ == name@);
        }
    }
    false
}

/// `assets/` as characters.
fn assets_prefix_chars() -> (v: Vec<char>)
    ensures
        v@ == assets_prefix(),
{
    let v: Vec<char> = vec!['a', 's', 's', 'e', 't', 's', '/'];
    assert(v@ =~= assets_prefix());
    v
}

/// Lay out a pack for the project's asset paths, in the order the project
/// lists them; `present[i]` tells whether `paths[i]` can be read.
pub fn plan_pack(paths: &Vec<String>, present: &Vec<bool>) -> (plan: PackPlan)
    requires
        paths@.len() == present@.len(),
    ensures
        ({
            let p = plan_of(string_views(paths@), present@, paths@.len() as nat);
            &&& string_views(plan.renamed@) == p.0
            &&& entry_views(plan.entries@) == p.1
            &&& string_views(plan.missing@) == p.2
        }),
{
    let ghost ps = string_views(paths@);
    let mut renamed: Vec<String> = Vec::new();
    let mut entries: Vec<(String, String)> = Vec::new();
    let mut missing: Vec<String> = Vec::new();
    let prefix = assets_prefix_chars();
    let mut i: usize = 0;
    while i < paths.len()
        invariant
            i <= paths@.len(),
            paths@.len() == present@.len(),
            ps == string_views(paths@),
            prefix@ == assets_prefix(),
            entries_distinct(entry_views(entries@)),
            string_views(renamed@) == plan_of(ps, present@, i as nat).0,
            entry_views(entries@) == plan_of(ps, present@, i as nat).1,
            string_views(missing@) == plan_of(ps, present@, i as nat).2,
        decreases paths@.len() - i,
    {
        proof {
            lemma_plan_of(ps, present@, i as nat);
        }
        let ghost before = plan_of(ps, present@, i as nat);
        let ghost ev = entry_views(entries@);
        let path: &String = &paths[i];
        assert(ps[i as int] == path@);
        if path.as_str().is_empty() {
            renamed.push(path.clone());
            assert(string_views(renamed@) =~= before.0.push(path@));
        } else {
            match find_source(&entries, path.as_str()) {
                Some(j) => {
                    proof {
                        assert(ev[j as int].1 == path@);
                        assert(has_source(ev, path@));
                        let c = choose|k: int| 0 <= k < ev.len() && ev[k].1 == path@;
                        assert(c == j as int);
                    }
                    renamed.push(entries[j].0.clone());
                    assert(string_views(renamed@) =~= before.0.push(name_for_source(ev, path@)));
                },
                None => {
                    proof {
                        if has_source(ev, path@) {
                            let k = choose|k: int| 0 <= k < ev.len() && ev[k].1 == path@;
                            assert(entries@[k].1@ == path@);
                        }
                    }
                    if !present[i] {
                        renamed.push(path.clone());
                        missing.push(path.clone());
                        assert(string_views(renamed@) =~= before.0.push(path@));
                        assert(string_views(missing@) =~= before.2.push(path@));
                    } else {
                        let file: Vec<char> = chars_of(file_name(path.as_str()));
                        let ghost fl = file@;
                        assert(fl == file_name_of(path@));
                        let ghost names = ev.map_values(|e: (Seq<char>, Seq<char>)| e.0).to_set();
                        proof {
                            vstd::seq_lib::seq_to_set_is_finite(ev.map_values(|e: (Seq<char>, Seq<char>)| e.0));
                            ev.map_values(|e: (Seq<char>, Seq<char>)| e.0).lemma_cardinality_of_set();
                            assert(entries@.len() == entries.len());
                        }
                        let mut n: u128 = 0;
                        let mut name = make_numbered(&prefix, &file, 0);
                        while name_in(&entries, name.as_str())
                            invariant
                                prefix@ == assets_prefix(),
                                file@ == fl,
                                ev == entry_views(entries@),
                                names.finite(),
                                names.len() <= entries@.len(),
                                entries@.len() <= usize::MAX,
                                names == ev.map_values(|e: (Seq<char>, Seq<char>)| e.0).to_set(),
                                n <= names.len(),
                                name@ == numbered(assets_prefix(), fl, n as nat),
                                forall|m: nat| m < n ==> name_taken(ev, #[trigger] numbered(assets_prefix(), fl, m)),
                            decreases names.len() - n,
                        {
                            proof {
                                assert forall|m: nat| m < n + 1 implies names.contains(#[trigger] numbered(assets_prefix(), fl, m)) by {
                                    assert(name_taken(ev, numbered(assets_prefix(), fl, m)));
                                    let j = choose|j: int| 0 <= j < ev.len() && ev[j].0 == numbered(assets_prefix(), fl, m);
                                    assert(ev.map_values(|e: (Seq<char>, Seq<char>)| e.0)[j] == numbered(assets_prefix(), fl, m));
                                }
                                lemma_taken_numbered(names, assets_prefix(), fl, (n + 1) as nat);
                            }
                            n = n + 1;
                            name = make_numbered(&prefix, &file, n);
                        }
                        proof {
                            lemma_first_free(ev, fl, n as nat);
                        }
                        entries.push((name.clone(), path.clone()));
                        renamed.push(name);
                        assert(string_views(renamed@) =~= before.0.push(numbered(assets_prefix(), fl, first_free(ev, fl))));
                        assert(entry_views(entries@) =~= ev.push((numbered(assets_prefix(), fl, first_free(ev, fl)), path@)));
                    }
                },
            }
        }
        proof {
            lemma_plan_step(before, ps[i as int], present@[i as int]);
        }
        i += 1;
    }
    PackPlan { renamed, entries, missing }
}

/// Whether asset path `i` was readable earlier in the list: some path
/// before it is the same and could be read.
pub open spec fn read_earlier(paths: Seq<Seq<char>>, present: Seq<bool>, i: int) -> bool {
    exists|j: int| 0 <= j < i && paths[j] == paths[i] && present[j]
}

/// Whether asset path `i` is to be reported missing: it is not empty, it
/// cannot be read, and no readable copy of it came before.
pub open spec fn unreadable_asset(paths: Seq<Seq<char>>, present: Seq<bool>, i: int) -> bool {
    paths[i].len() > 0 && !present[i] && !read_earlier(paths, present, i)
}

/// The asset paths among the first `n` that are to be reported missing,
/// in order.
pub open spec fn unreadable_assets(paths: Seq<Seq<char>>, present: Seq<bool>, n: nat) -> Seq<Seq<char>>
    decreases n,
{
    if n == 0 {
        Seq::empty()
    } else {
        let rest = unreadable_assets(paths, present, (n - 1) as nat);
        if unreadable_asset(paths, present, n - 1) {
            rest.push(paths[n - 1])
        } else {
            rest
        }
    }
}

/// The entries of a plan copy exactly the readable, non-empty paths.
proof fn lemma_plan_sources(paths: Seq<Seq<char>>, present: Seq<bool>, n: nat, p: Seq<char>)
    requires
        n <= paths.len(),
        n <= present.len(),
    ensures
        has_source(plan_of(paths, present, n).1, p) <==> (p.len() > 0 && exists|j: int| 0 <= j < n && paths[j] == p && present[j]),
    decreases n,
{
    if n > 0 {
        let m = (n - 1) as nat;
        lemma_plan_sources(paths, present, m, p);
        lemma_plan_sources(paths, present, m, paths[m as int]);
        let (r0, e0, x0) = plan_of(paths, present, m);
        let e1 = plan_of(paths, present, n).1;
        let path = paths[m as int];
        if path.len() == 0 || has_source(e0, path) || !present[m as int] {
            assert(e1 == e0);
            if p.len() > 0 && exists|j: int| 0 <= j < n && paths[j] == p && present[j] {
                let j = choose|j: int| 0 <= j < n && paths[j] == p && present[j];
                if j == m {
                    assert(has_source(e0, path));
                } else {
                    assert(exists|j: int| 0 <= j < m && paths[j] == p && present[j]);
                }
            }
            if has_source(e1, p) {
                let j = choose|j: int| 0 <= j < m && paths[j] == p && present[j];
                assert(0 <= j < n && paths[j] == p && present[j]);
            }
        } else {
            let file = file_name_of(path);
            let name = numbered(assets_prefix(), file, first_free(e0, file));
            assert(e1 == e0.push((name, path)));
            if has_source(e1, p) {
                let k = choose|k: int| 0 <= k < e1.len() && e1[k].1 == p;
                if k < e0.len() {
                    assert(e0[k] == e1[k]);
                    assert(has_source(e0, p));
                    let j = choose|j: int| 0 <= j < m && paths[j] == p && present[j];
                    assert(0 <= j < n && paths[j] == p && present[j]);
                } else {
                    assert(paths[m as int] == p && present[m as int]);
                }
            }
            if p.len() > 0 && exists|j: int| 0 <= j < n && paths[j] == p && present[j] {
                let j = choose|j: int| 0 <= j < n && paths[j] == p && present[j];
                if j == m {
                    assert(e1[e0.len() as int].1 == p);
                } else {
                    assert(exists|j: int| 0 <= j < m && paths[j] == p && present[j]);
                    let k = choose|k: int| 0 <= k < e0.len() && e0[k].1 == p;
                    assert(e1[k] == e0[k]);
                }
            }
        }
    }
}

/// A pack plan reports every asset that cannot be read, once for each
/// place it comes where no readable copy of it came before, in order:
/// the missing list is exactly those paths.
pub proof fn law_pack_plan_reports_missing(paths: Seq<Seq<char>>, present: Seq<bool>, n: nat)
    requires
        n <= paths.len(),
        n <= present.len(),
    ensures
        plan_of(paths, present, n).2 == unreadable_assets(paths, present, n),
        forall|i: int| 0 <= i < n && #[trigger] unreadable_asset(paths, present, i) ==> plan_of(paths, present, n).2.contains(paths[i]),
    decreases n,
{
    if n > 0 {
        let m = (n - 1) as nat;
        law_pack_plan_reports_missing(paths, present, m);
        let path = paths[m as int];
        lemma_plan_sources(paths, present, m, path);
        let e0 = plan_of(paths, present, m).1;
        assert(has_source(e0, path) <==> (path.len() > 0 && read_earlier(paths, present, m as int)));
        let x1 = plan_of(paths, present, n).2;
        let x0 = plan_of(paths, present, m).2;
        assert(x1 == unreadable_assets(paths, present, n));
        assert forall|i: int| 0 <= i < n && #[trigger] unreadable_asset(paths, present, i) implies x1.contains(paths[i]) by {
            if i < m {
                assert(x0.contains(paths[i]));
                let k = choose|k: int| 0 <= k < x0.len() && x0[k] == paths[i];
                assert(x1.len() >= x0.len() && x1[k] == x0[k]);
            } else {
                assert(x1[x1.len() - 1] == paths[i]);
            }
        }
    }
}

/// What a pack plan promises: entry names are distinct and lie in
/// `assets/`; each source is copied once; every readable asset path is
/// renamed to the entry that copies it; an unreadable one, not copied
/// before, keeps its path and is reported missing.
#[verifier::spinoff_prover]
#[verifier::rlimit(40)]
pub proof fn law_pack_plan(paths: Seq<Seq<char>>, present: Seq<bool>, n: nat)
    requires
        n <= paths.len(),
        n <= present.len(),
    ensures
        ({
            let (renamed, entries, missing) = plan_of(paths, present, n);
            &&& entries_distinct(entries)
            &&& renamed.len() == n
            &&& forall|j: int| 0 <= j < entries.len() ==> assets_prefix().is_prefix_of(#[trigger] entries[j].0)
            &&& forall|i: int|
                0 <= i < n && paths[i].len() > 0 && present[i] ==> exists|j: int|
                    0 <= j < entries.len() && #[trigger] entries[j] == (renamed[i], paths[i])
            &&& forall|i: int| 0 <= i < n && paths[i].len() == 0 ==> #[trigger] renamed[i] == paths[i]
            &&& forall|k: int| 0 <= k < missing.len() ==> paths.take(n as int).contains(#[trigger] missing[k])
        }),
    decreases n,
{
    lemma_plan_of(paths, present, n);
    if n > 0 {
        let m = (n - 1) as nat;
        law_pack_plan(paths, present, m);
        let before = plan_of(paths, present, m);
        let after = plan_of(paths, present, n);
        let path = paths[m as int];
        let (r0, e0, x0) = before;
        let (r1, e1, x1) = after;
        lemma_plan_of(paths, present, m);
        assert(r1.take(m as int) =~= r0);
        assert(e0.len() <= e1.len() && e1.take(e0.len() as int) =~= e0);
        assert(x0.len() <= x1.len() && x1.take(x0.len() as int) =~= x0);
        assert forall|j: int| 0 <= j < e1.len() implies assets_prefix().is_prefix_of(#[trigger] e1[j].0) by {
            if j < e0.len() {
                assert(e1[j] == e0[j]);
            } else {
                let file = file_name_of(path);
                let name = numbered(assets_prefix(), file, first_free(e0, file));
                assert(e1[j].0 == name);
                assert(name.subrange(0, assets_prefix().len() as int) =~= assets_prefix());
            }
        }
        assert forall|i: int| 0 <= i < n && paths[i].len() > 0 && present[i] implies exists|j: int|
            0 <= j < e1.len() && #[trigger] e1[j] == (r1[i], paths[i]) by {
            if i < m {
                let j = choose|j: int| 0 <= j < e0.len() && #[trigger] e0[j] == (r0[i], paths[i]);
                assert(e1[j] == e0[j]);
                assert(r1[i] == r0[i]);
            } else if has_source(e0, path) {
                let j = choose|j: int| 0 <= j < e0.len() && e0[j].1 == path;
                assert(e1[j] == e0[j]);
                assert(e1[j] == (r1[i], paths[i]));
            } else {
                assert(e1[e0.len() as int] == (r1[i], paths[i]));
            }
        }
        assert forall|i: int| 0 <= i < n && paths[i].len() == 0 implies #[trigger] r1[i] == paths[i] by {
            if i < m {
                assert(r1[i] == r0[i]);
            }
        }
        assert forall|k: int| 0 <= k < x1.len() implies paths.take(n as int).contains(#[trigger] x1[k]) by {
            if k < x0.len() {
                assert(x1[k] == x0[k]);
                let w = choose|w: int| 0 <= w < paths.take(m as int).len() && paths.take(m as int)[w] == x0[k];
                assert(paths.take(n as int)[w] == x0[k]);
            } else {
                assert(x1[k] == path);
                assert(paths.take(n as int)[m as int] == path);
            }
        }
    }
}


/// Where an asset of an opened pack is kept in memory:
/// `mem://<prefix>/<name in the pack>`.
pub open spec fn unpacked_path(prefix: Seq<char>, rel: Seq<char>) -> Seq<char> {
    mem_prefix() + prefix + seq!['/'] + rel
}

/// `mem://<prefix>/<rel>`.
pub fn unpacked_path_of(prefix: &str, rel: &str) -> (r: String)
    ensures
        r@ == unpacked_path(prefix@, rel@),
{
    let mut r: String = String::new();
    push_str(&mut r, "mem://");
    push_str(&mut r, prefix);
    push_char(&mut r, '/');
    push_str(&mut r, rel);
    proof {
        reveal_strlit("mem://");
        assert("mem://"@ =~= mem_prefix());
    }
    assert(r@ =~= unpacked_path(prefix@, rel@));
    r
}

/// The first pair of `mapping` whose first string is `path`.
pub open spec fn first_mapped(mapping: Seq<(Seq<char>, Seq<char>)>, path: Seq<char>) -> Option<Seq<char>>
    decreases mapping.len(),
{
    if mapping.len() == 0 {
        None
    } else if mapping[0].0 == path {
        Some(mapping[0].1)
    } else {
        first_mapped(mapping.drop_first(), path)
    }
}

/// Where `path` goes in `mapping` (its first pair), if anywhere.
pub fn remap(path: &str, mapping: &Vec<(String, String)>) -> (r: Option<String>)
    ensures
        match r {
            Some(m) => first_mapped(entry_views(mapping@), path@) == Some(m@),
            None => first_mapped(entry_views(mapping@), path@) is None,
        },
{
    let ghost mv = entry_views(mapping@);
    let mut i: usize = 0;
    assert(mv.skip(0) =~= mv);
    while i < mapping.len()
        invariant
            i <= mapping@.len(),
            mv == entry_views(mapping@),
            first_mapped(mv, path@) == first_mapped(mv.skip(i as int), path@),
        decreases mapping@.len() - i,
    {
        proof {
            assert(mv.skip(i as int).drop_first() =~= mv.skip(i as int + 1));
            assert(mv.skip(i as int)[0] == mv[i as int]);
        }
        if str_eq(mapping[i].0.as_str(), path) {
            return Some(mapping[i].1.clone());
        }
        i += 1;
    }
    proof {
        assert(mv.skip(i as int).len() == 0);
    }
    None
}


/// Lets `serde_json::Error` stand in signatures.
#[verifier::external_type_specification]
#[verifier::external_body]
pub struct ExJsonError(serde_json::Error);

/// Why a project or pack could not be read or written.
pub enum AssetError {
    Io(std::io::Error),
    /// The project file is not valid.
    Json(serde_json::Error),
    /// The pack is not a valid zip.
    Zip(ZipError),
    Invalid(String),
}

/// The text of `bytes` decoded as UTF-8, invalid sequences replaced by
/// U+FFFD (`String::from_utf8_lossy`).
pub uninterp spec fn utf8_lossy_text(bytes: Seq<u8>) -> Seq<char>;

/// The text that `String::from_utf8_lossy` reads from `bytes`: valid
/// UTF-8 as it is.
pub open spec fn text_of_bytes(bytes: Seq<u8>) -> Seq<char> {
    if vstd::utf8::valid_utf8(bytes) {
        vstd::utf8::decode_utf8(bytes)
    } else {
        utf8_lossy_text(bytes)
    }
}

/// `String::from_utf8_lossy`: valid UTF-8 is decoded as it is.
#[verifier::external_body]
fn utf8_lossy(bytes: &[u8]) -> (s: String)
    ensures
        s@ == utf8_lossy_text(bytes@),
        vstd::utf8::valid_utf8(bytes@) ==> s@ == vstd::utf8::decode_utf8(bytes@),
{
    String::from_utf8_lossy(bytes).to_string()
}

/// A file of a pack as it is written: deflated, its data in one write.
pub open spec fn packed_file(name: Seq<char>, data: Seq<u8>) -> (Seq<char>, bool, Seq<Seq<u8>>) {
    (name, false, writes_of(data))
}

/// The files of a pack: the project file (the bytes of its text), then the
/// entries.
pub open spec fn pack_files(json: Seq<u8>, files: Seq<(String, Vec<u8>)>) -> Seq<(Seq<char>, bool, Seq<Seq<u8>>)> {
    seq![packed_file(PACK_PROJECT@, json)] + files.map_values(|f: (String, Vec<u8>)| packed_file(f.0@, f.1@))
}

/// The project file's name is made of plain characters, sixteen of them.
proof fn lemma_pack_project_name()
    ensures
        PACK_PROJECT@.len() == 16,
        forall|k: int| 0 <= k < PACK_PROJECT@.len() ==> is_plain_char(#[trigger] PACK_PROJECT@[k]),
        PACK_PROJECT@[0] == 'p',
        PACK_PROJECT@.last() == 'n',
        fits_zip_name(PACK_PROJECT@),
{
    reveal_strlit("project.ez2.json");
    let s = seq!['p', 'r', 'o', 'j', 'e', 'c', 't', '.', 'e', 'z', '2', '.', 'j', 's', 'o', 'n'];
    assert(PACK_PROJECT@ =~= s);
    assert forall|k: int| 0 <= k < s.len() implies is_plain_char(#[trigger] s[k]) by {
        if k == 0 {} else if k == 1 {} else if k == 2 {} else if k == 3 {} else if k == 4 {} else if k == 5 {} else if k == 6 {} else if k == 7 {} else if k == 8 {} else if k == 9 {} else if k == 10 {} else if k == 11 {} else if k == 12 {} else if k == 13 {} else if k == 14 {} else {}
    }
    lemma_plain_name_fits(s);
}

/// No two entries share a name, and none is named like the project file.
pub open spec fn distinct_pack_names(files: Seq<(String, Vec<u8>)>) -> bool {
    &&& forall|a: int, b: int| 0 <= a < b < files.len() ==> files[a].0@ != files[b].0@
    &&& forall|k: int| 0 <= k < files.len() ==> (#[trigger] files[k]).0@ != PACK_PROJECT@
}

/// Whether some entry's name is too long for a zip.
pub open spec fn some_name_too_long(files: Seq<(String, Vec<u8>)>) -> bool {
    exists|k: int| 0 <= k < files.len() && !fits_zip_name(#[trigger] files[k].0@)
}

/// Whether a pack of the project text `json` and the entries `files` fits
/// in a zip: every name fits, no name repeats (nor is the project file's),
/// and the project text and every entry hold at most [`MAX_FILE_BYTES`].
pub open spec fn pack_fits(json: Seq<u8>, files: Seq<(String, Vec<u8>)>) -> bool {
    &&& !some_name_too_long(files)
    &&& distinct_pack_names(files)
    &&& json.len() <= MAX_FILE_BYTES
    &&& forall|k: int| 0 <= k < files.len() ==> (#[trigger] files[k]).1@.len() <= MAX_FILE_BYTES
}

/// The files of a pack under way fit when the pack does.
proof fn lemma_pack_files_fit(json: Seq<u8>, files: Seq<(String, Vec<u8>)>, i: int)
    requires
        pack_fits(json, files),
        0 <= i <= files.len(),
    ensures
        files_fit(seq![packed_file(PACK_PROJECT@, json)] + files.take(i).map_values(|f: (String, Vec<u8>)| packed_file(f.0@, f.1@))),
{
    let fs = seq![packed_file(PACK_PROJECT@, json)] + files.take(i).map_values(|f: (String, Vec<u8>)| packed_file(f.0@, f.1@));
    assert forall|k: int| 0 <= k < fs.len() implies file_len(#[trigger] fs[k]) <= MAX_FILE_BYTES by {
        if k == 0 {
            lemma_writes_of(json);
        } else {
            let f = files[k - 1];
            assert(fs[k] == packed_file(f.0@, f.1@));
            lemma_writes_of(f.1@);
        }
    }
}

/// `pack entry name longer than 65535 bytes`.
fn long_name_message() -> (s: String)
    ensures
        s@ == "pack entry name longer than 65535 bytes"@,
{
    let mut s: String = String::new();
    push_str(&mut s, "pack entry name longer than 65535 bytes");
    s
}

/// Write a pack: the project file first, then each `(name, data)` entry,
/// all deflated. A name too long for a zip is refused before anything is
/// written. Names that repeat (the project file's included) are refused
/// by the zip writer. On success the bytes are the archive of exactly
/// those files, and read back they list those files with that data; any
/// other failure comes from the zip writer.
pub fn write_pack(project_json: &str, files: &Vec<(String, Vec<u8>)>) -> (r: Result<Vec<u8>, AssetError>)
    ensures
        some_name_too_long(files@) <==> r matches Err(AssetError::Invalid(_)),
        r matches Err(AssetError::Invalid(m)) ==> m@ == "pack entry name longer than 65535 bytes"@,
        r matches Ok(b) ==> b@ == zip_archive(pack_files(project_json.spec_bytes(), files@)),
        r matches Ok(b) ==> archive_reads_back(b@, pack_files(project_json.spec_bytes(), files@)),
        r is Ok ==> distinct_pack_names(files@),
        pack_fits(project_json.spec_bytes(), files@) ==> r is Ok,
        r matches Err(e) ==> e is Zip || e is Io || e is Invalid,
{
    let mut k: usize = 0;
    while k < files.len()
        invariant
            k <= files@.len(),
            forall|j: int| 0 <= j < k ==> fits_zip_name(#[trigger] files@[j].0@),
        decreases files@.len() - k,
    {
        if files[k].0.as_str().as_bytes().len() > MAX_NAME_BYTES {
            assert(!fits_zip_name(files@[k as int].0@));
            return Err(AssetError::Invalid(long_name_message()));
        }
        k += 1;
    }
    proof {
        lemma_pack_project_name();
    }
    let ghost fits = pack_fits(project_json.spec_bytes(), files@);
    let mut z: ZipOut = zip_out_new();
    assert(file_names(zip_out_files(z)) =~= Seq::<Seq<char>>::empty());
    match zip_out_start(&mut z, PACK_PROJECT, Compression::Deflated) {
        Ok(()) => {},
        Err(e) => return Err(AssetError::Zip(e)),
    }
    let json = project_json.as_bytes();
    assert(Seq::<Seq<u8>>::empty().flatten() =~= Seq::<u8>::empty());
    match zip_out_write(&mut z, json) {
        Ok(()) => {},
        Err(e) => return Err(AssetError::Io(e)),
    }
    let ghost head = seq![packed_file(PACK_PROJECT@, json@)];
    assert(zip_out_files(z) =~= head + files@.take(0).map_values(|f: (String, Vec<u8>)| packed_file(f.0@, f.1@)));
    let mut i: usize = 0;
    while i < files.len()
        invariant
            i <= files@.len(),
            json@ == project_json.spec_bytes(),
            head == seq![packed_file(PACK_PROJECT@, json@)],
            zip_out_files(z) == head + files@.take(i as int).map_values(|f: (String, Vec<u8>)| packed_file(f.0@, f.1@)),
            forall|j: int| 0 <= j < files@.len() ==> fits_zip_name(#[trigger] files@[j].0@),
            distinct_pack_names(files@.take(i as int)),
            fits == pack_fits(project_json.spec_bytes(), files@),
            fits ==> zip_out_open(z),
        decreases files@.len() - i,
    {
        let ghost before = zip_out_files(z);
        proof {
            if fits {
                lemma_pack_files_fit(json@, files@, i as int);
                let names = file_names(before);
                if names.contains(files@[i as int].0@) {
                    let j = choose|j: int| 0 <= j < names.len() && names[j] == files@[i as int].0@;
                    if j > 0 {
                        assert(names[j] == files@[j - 1].0@);
                    }
                }
            }
        }
        match zip_out_start(&mut z, files[i].0.as_str(), Compression::Deflated) {
            Ok(()) => {},
            Err(e) => return Err(AssetError::Zip(e)),
        }
        proof {
            let names = file_names(before);
            let t = files@.take(i as int + 1);
            assert(names[0] == PACK_PROJECT@);
            assert forall|a: int| 0 <= a < i implies names[a + 1] == (#[trigger] files@[a]).0@ by {}
            assert forall|a: int, b: int| 0 <= a < b < t.len() implies t[a].0@ != t[b].0@ by {
                if b == i {
                    assert(names[a + 1] == files@[a].0@);
                } else {
                    assert(files@.take(i as int)[a] == t[a] && files@.take(i as int)[b] == t[b]);
                }
            }
            assert forall|k: int| 0 <= k < t.len() implies (#[trigger] t[k]).0@ != PACK_PROJECT@ by {
                if k < i {
                    assert(files@.take(i as int)[k] == t[k]);
                }
            }
        }
        assert(Seq::<Seq<u8>>::empty().flatten() =~= Seq::<u8>::empty());
        match zip_out_write(&mut z, files[i].1.as_slice()) {
            Ok(()) => {},
            Err(e) => return Err(AssetError::Io(e)),
        }
        proof {
            let f = files@[i as int];
            assert(zip_out_files(z) =~= before.push(packed_file(f.0@, f.1@)));
            assert(files@.take(i as int + 1).map_values(|f: (String, Vec<u8>)| packed_file(f.0@, f.1@))
                =~= files@.take(i as int).map_values(|f: (String, Vec<u8>)| packed_file(f.0@, f.1@)).push(packed_file(f.0@, f.1@)));
        }
        i += 1;
    }
    assert(files@.take(files@.len() as int) =~= files@);
    proof {
        if fits {
            lemma_pack_files_fit(json@, files@, files@.len() as int);
        }
    }
    match zip_out_finish(z) {
        Ok(bytes) => Ok(bytes),
        Err(e) => Err(AssetError::Zip(e)),
    }
}

/// What opening a pack gives: the project file's text and, for each asset,
/// its name in the pack and where it now is in memory.
pub struct Unpacked {
    pub json: String,
    pub mapping: Vec<(String, String)>,
}

/// Opening a pack, one file at a time: the store, the project text found
/// so far, and the (name in the pack, memory path) pairs.
pub open spec fn unpack_step(
    st: (Map<Seq<char>, Seq<u8>>, Option<Seq<char>>, Seq<(Seq<char>, Seq<char>)>),
    rel: Option<Seq<char>>,
    is_dir: bool,
    data: Seq<u8>,
    prefix: Seq<char>,
) -> (Map<Seq<char>, Seq<u8>>, Option<Seq<char>>, Seq<(Seq<char>, Seq<char>)>) {
    let (store, json, mapping) = st;
    match rel {
        None => st,
        Some(rel) => if is_dir {
            st
        } else if rel == PACK_PROJECT@ {
            (store, Some(text_of_bytes(data)), mapping)
        } else {
            let path = unpacked_path(prefix, rel);
            (store.insert(path, data), json, mapping.push((rel, path)))
        },
    }
}

/// What opening a pack does with one of its files.
#[derive(Clone, Copy, Debug, PartialEq, Eq, Structural)]
pub enum EntryRole {
    /// A folder, or a name that could leave the folder it is opened into.
    Skip,
    /// The project file.
    Project,
    /// An asset.
    Asset,
}

/// The role of a file of a pack, from its name in `/` form (none when it
/// is unsafe) and whether it is a folder.
pub open spec fn role_of(rel: Option<Seq<char>>, is_dir: bool) -> EntryRole {
    match rel {
        None => EntryRole::Skip,
        Some(r) => if is_dir {
            EntryRole::Skip
        } else if r == PACK_PROJECT@ {
            EntryRole::Project
        } else {
            EntryRole::Asset
        },
    }
}

/// The role of a file of a pack: skipped, the project file, or an asset.
pub fn entry_role(rel: Option<&str>, is_dir: bool) -> (r: EntryRole)
    ensures
        r == role_of(
            match rel {
                Some(x) => Some(x@),
                None => None,
            },
            is_dir,
        ),
{
    match rel {
        None => EntryRole::Skip,
        Some(r) => if is_dir {
            EntryRole::Skip
        } else if str_eq(r, PACK_PROJECT) {
            EntryRole::Project
        } else {
            EntryRole::Asset
        },
    }
}

/// Takes one file of a pack (its name in `/` form, when it has a safe
/// one): the project file is kept as text, a folder or an unsafe name is
/// skipped, and any other file goes into the store under
/// `mem://<prefix>/<name>`.
pub fn unpack_entry(
    store: &mut MemStore,
    json: &mut Option<String>,
    mapping: &mut Vec<(String, String)>,
    rel: Option<String>,
    is_dir: bool,
    data: Vec<u8>,
    prefix: &str,
)
    ensures
        ({
            let (s, j, m) = unpack_step(
                (old(store)@, opt_view(*old(json)), entry_views(old(mapping)@)),
                opt_view(rel),
                is_dir,
                data@,
                prefix@,
            );
            &&& final(store)@ == s
            &&& opt_view(*final(json)) == j
            &&& entry_views(final(mapping)@) == m
        }),
{
    let role = match &rel {
        Some(r) => entry_role(Some(r.as_str()), is_dir),
        None => entry_role(None, is_dir),
    };
    match role {
        EntryRole::Skip => {},
        EntryRole::Project => {
            *json = Some(utf8_lossy(data.as_slice()));
        },
        EntryRole::Asset => {
            let rel = match rel {
                Some(r) => r,
                None => String::new(),
            };
            let path = unpacked_path_of(prefix, rel.as_str());
            let ghost before = entry_views(mapping@);
            insert(store, path.as_str(), data);
            mapping.push((rel, path));
            assert(entry_views(mapping@) =~= before.push((rel@, path@)));
        },
    }
}

/// The characters of an optional string.
pub open spec fn opt_view(o: Option<String>) -> Option<Seq<char>> {
    match o {
        Some(s) => Some(s@),
        None => None,
    }
}

/// `project.ez2.json missing in pack`.
fn missing_project_message() -> (s: String)
    ensures
        s@ == PACK_PROJECT@ + " missing in pack"@,
{
    let mut s: String = String::new();
    push_str(&mut s, PACK_PROJECT);
    push_str(&mut s, " missing in pack");
    s
}

/// The end of opening a pack: it must have held a project file.
pub fn finish_unpack(json: Option<String>, mapping: Vec<(String, String)>) -> (r: Result<Unpacked, AssetError>)
    ensures
        match json {
            Some(j) => r matches Ok(u) && u.json@ == j@ && u.mapping@ == mapping@,
            None => r matches Err(AssetError::Invalid(m)) && m@ == PACK_PROJECT@ + " missing in pack"@,
        },
{
    match json {
        Some(j) => Ok(Unpacked { json: j, mapping }),
        None => Err(AssetError::Invalid(missing_project_message())),
    }
}

/// The result of opening a pack whose files are `entries` (names already
/// in `/` form).
pub open spec fn unpack_all(
    st: (Map<Seq<char>, Seq<u8>>, Option<Seq<char>>, Seq<(Seq<char>, Seq<char>)>),
    entries: Seq<(Option<Seq<char>>, bool, Seq<u8>)>,
    prefix: Seq<char>,
) -> (Map<Seq<char>, Seq<u8>>, Option<Seq<char>>, Seq<(Seq<char>, Seq<char>)>)
    decreases entries.len(),
{
    if entries.len() == 0 {
        st
    } else {
        let e = entries.last();
        unpack_step(unpack_all(st, entries.drop_last(), prefix), e.0, e.1, e.2, prefix)
    }
}

/// An entry as plain values.
pub open spec fn entry_value(e: ZipEntry) -> (Option<Seq<char>>, bool, Seq<u8>) {
    (opt_view(e.name), e.is_dir, e.data@)
}

/// Open a pack whose files, in order, are `entries` (names in `/` form):
/// its assets go into the store under `mem://<prefix>/…`.
pub fn unpack_entries(store: &mut MemStore, entries: Vec<ZipEntry>, prefix: &str) -> (r: Result<Unpacked, AssetError>)
    ensures
        ({
            let (s, j, m) = unpack_all(
                (old(store)@, None, Seq::empty()),
                entries@.map_values(|e: ZipEntry| entry_value(e)),
                prefix@,
            );
            &&& final(store)@ == s
            &&& match j {
                Some(text) => r matches Ok(u) && u.json@ == text && entry_views(u.mapping@) == m,
                None => r matches Err(AssetError::Invalid(msg)) && msg@ == PACK_PROJECT@ + " missing in pack"@,
            }
        }),
{
    let ghost vals = entries@.map_values(|e: ZipEntry| entry_value(e));
    let ghost start = store@;
    let mut json: Option<String> = None;
    let mut mapping: Vec<(String, String)> = Vec::new();
    let mut i: usize = 0;
    let mut rest = entries;
    let ghost all = rest@;
    assert(all.len() == rest.len());
    assert(all.skip(0) =~= all);
    while rest.len() > 0
        invariant
            i + rest@.len() == all.len(),
            all.len() <= usize::MAX,
            vals == all.map_values(|e: ZipEntry| entry_value(e)),
            rest@ == all.skip(i as int),
            ({
                let (s, j, m) = unpack_all((start, None, Seq::empty()), vals.take(i as int), prefix@);
                &&& store@ == s
                &&& opt_view(json) == j
                &&& entry_views(mapping@) == m
            }),
        decreases rest@.len(),
    {
        let e = rest.remove(0);
        proof {
            assert(e == all[i as int]);
            assert(vals.take(i as int + 1).drop_last() =~= vals.take(i as int));
            assert(vals.take(i as int + 1).last() == entry_value(e));
        }
        unpack_entry(store, &mut json, &mut mapping, e.name, e.is_dir, e.data, prefix);
        i += 1;
    }
    proof {
        assert(vals.take(i as int) =~= vals);
    }
    finish_unpack(json, mapping)
}

/// The state of opening a pack: the store, the project text found so far,
/// and the (name in the pack, memory path) pairs.
pub type UnpackState = (Map<Seq<char>, Seq<u8>>, Option<Seq<char>>, Seq<(Seq<char>, Seq<char>)>);

/// Names in `/` form for the files that the archive in `bytes` lists: one
/// for each, and for every name that stays enclosed on every platform its
/// names joined with `/` (`None` stands for a name that is skipped).
pub open spec fn rels_fit(bytes: Seq<u8>, rels: Seq<Option<Seq<char>>>) -> bool {
    match zip_listing(bytes) {
        Some(names) => {
            &&& rels.len() == names.len()
            &&& forall|k: int| 0 <= k < names.len() && stays_enclosed(#[trigger] names[k]) ==> rels[k] == Some(joined(slash_names(names[k])))
        },
        None => false,
    }
}

/// Where opening a pack stands: still going, or stopped because a file
/// could not be opened (a zip error) or its data not read (an I/O error).
pub enum UnpackStop {
    Going,
    Unopened,
    Unread,
}

/// Opening the pack in `bytes`, whose files are listed as `names` and
/// have the names `rels` in `/` form, over its first `n` files: the state
/// reached, and whether a file could not be opened or read, which stops
/// the opening. Folders and skipped names are not read.
pub open spec fn unpack_run(
    st: UnpackState,
    bytes: Seq<u8>,
    names: Seq<Seq<char>>,
    rels: Seq<Option<Seq<char>>>,
    prefix: Seq<char>,
    n: nat,
) -> (UnpackState, UnpackStop)
    decreases n,
{
    if n == 0 {
        (st, UnpackStop::Going)
    } else {
        let (s, stop) = unpack_run(st, bytes, names, rels, prefix, (n - 1) as nat);
        let i = n - 1;
        if !(stop is Going) {
            (s, stop)
        } else if !zip_file_opens(bytes, i) {
            (s, UnpackStop::Unopened)
        } else if rels[i] is None || names_folder(names[i]) {
            (s, UnpackStop::Going)
        } else {
            match zip_file_data(bytes, i) {
                Some(data) => (unpack_step(s, rels[i], false, data, prefix), UnpackStop::Going),
                None => (s, UnpackStop::Unread),
            }
        }
    }
}

/// What opening the pack in `bytes` ends with, from the store `start`:
/// the store `end` and the result `r`. A file that cannot be opened gives
/// a zip error, data that cannot be read an I/O error; otherwise the
/// project text must have been found.
pub open spec fn unpack_outcome(
    start: Map<Seq<char>, Seq<u8>>,
    bytes: Seq<u8>,
    rels: Seq<Option<Seq<char>>>,
    prefix: Seq<char>,
    end: Map<Seq<char>, Seq<u8>>,
    r: Result<Unpacked, AssetError>,
) -> bool {
    match zip_listing(bytes) {
        Some(names) => {
            let (st, stop) = unpack_run((start, None, Seq::empty()), bytes, names, rels, prefix, names.len());
            &&& end == st.0
            &&& match stop {
                UnpackStop::Unopened => r matches Err(AssetError::Zip(_)),
                UnpackStop::Unread => r matches Err(AssetError::Io(_)),
                UnpackStop::Going => match st.1 {
                    Some(text) => r matches Ok(u) && u.json@ == text && entry_views(u.mapping@) == st.2,
                    None => r matches Err(AssetError::Invalid(m)) && m@ == PACK_PROJECT@ + " missing in pack"@,
                },
            }
        },
        None => false,
    }
}

/// Changing the names of later files changes nothing so far.
proof fn lemma_run_prefix(
    st: UnpackState,
    bytes: Seq<u8>,
    names: Seq<Seq<char>>,
    a: Seq<Option<Seq<char>>>,
    b: Seq<Option<Seq<char>>>,
    prefix: Seq<char>,
    n: nat,
)
    requires
        forall|k: int| 0 <= k < n ==> a[k] == b[k],
    ensures
        unpack_run(st, bytes, names, a, prefix, n) == unpack_run(st, bytes, names, b, prefix, n),
    decreases n,
{
    if n > 0 {
        lemma_run_prefix(st, bytes, names, a, b, prefix, (n - 1) as nat);
    }
}

/// Once a file could not be read, nothing more happens.
proof fn lemma_run_stops(
    st: UnpackState,
    bytes: Seq<u8>,
    names: Seq<Seq<char>>,
    rels: Seq<Option<Seq<char>>>,
    prefix: Seq<char>,
    n: nat,
    m: nat,
)
    requires
        n <= m,
        !(unpack_run(st, bytes, names, rels, prefix, n).1 is Going),
    ensures
        unpack_run(st, bytes, names, rels, prefix, m) == unpack_run(st, bytes, names, rels, prefix, n),
    decreases m,
{
    if n < m {
        lemma_run_stops(st, bytes, names, rels, prefix, n, (m - 1) as nat);
    }
}

/// Open a pack held in memory: its assets go into the store under
/// `mem://<prefix>/…`, and the project text comes back with the names the
/// project uses for them.
///
/// Bytes that hold no archive give a zip error and leave the store as it
/// was. Otherwise the files are taken in order as [`unpack_run`] says,
/// each under its name in `/` form (a name that stays enclosed on every
/// platform is always kept).
pub fn unpack_bytes(store: &mut MemStore, bytes: &[u8], prefix: &str) -> (r: Result<Unpacked, AssetError>)
    ensures
        zip_listing(bytes@) is None ==> (r matches Err(AssetError::Zip(_))) && final(store)@ == old(store)@,
        zip_listing(bytes@) is Some ==> exists|rels: Seq<Option<Seq<char>>>|
            #[trigger] rels_fit(bytes@, rels) && unpack_outcome(old(store)@, bytes@, rels, prefix@, final(store)@, r),
{
    let ghost start = store@;
    let mut archive = match zip_open(bytes) {
        Ok(a) => a,
        Err(e) => return Err(AssetError::Zip(e)),
    };
    let ghost names: Seq<Seq<char>> = zip_listing(bytes@)->0;
    let n = zip_len(&archive);
    let ghost mut rels: Seq<Option<Seq<char>>> = Seq::new(
        names.len(),
        |k: int| if stays_enclosed(names[k]) { Some(joined(slash_names(names[k]))) } else { None },
    );
    let ghost init: UnpackState = (start, None, Seq::empty());
    let mut json: Option<String> = None;
    let mut mapping: Vec<(String, String)> = Vec::new();
    let mut i: usize = 0;
    while i < n
        invariant
            i <= n,
            n == names.len(),
            zip_listing(bytes@) == Some(names),
            zip_source(archive) == bytes@,
            start == old(store)@,
            init == (start, Option::<Seq<char>>::None, Seq::<(Seq<char>, Seq<char>)>::empty()),
            rels_fit(bytes@, rels),
            unpack_run(init, bytes@, names, rels, prefix@, i as nat) == ((store@, opt_view(json), entry_views(mapping@)), UnpackStop::Going),
        decreases n - i,
    {
        let ghost before = rels;
        match zip_entry_head(&mut archive, i) {
            Err(e) => {
                proof {
                    lemma_run_stops(init, bytes@, names, rels, prefix@, i as nat + 1, names.len());
                }
                return Err(AssetError::Zip(e));
            },
            Ok((nm, d)) => {
                let rel = match nm {
                    Some(name) => Some(to_slash(name.as_str())),
                    None => None,
                };
                proof {
                    rels = rels.update(i as int, opt_view(rel));
                    lemma_run_prefix(init, bytes@, names, before, rels, prefix@, i as nat);
                    assert(rels_fit(bytes@, rels)) by {
                        assert forall|k: int| 0 <= k < names.len() && stays_enclosed(#[trigger] names[k])
                            implies rels[k] == Some(joined(slash_names(names[k]))) by {
                            if k != i {
                                assert(rels[k] == before[k]);
                            }
                        }
                    }
                }
                if rel.is_some() && !d {
                    match zip_entry_data(&mut archive, i) {
                        Err(e) => {
                            proof {
                                lemma_run_stops(init, bytes@, names, rels, prefix@, i as nat + 1, names.len());
                            }
                            return Err(AssetError::Zip(e));
                        },
                        Ok(Err(e)) => {
                            proof {
                                lemma_run_stops(init, bytes@, names, rels, prefix@, i as nat + 1, names.len());
                            }
                            return Err(AssetError::Io(e));
                        },
                        Ok(Ok(data)) => {
                            unpack_entry(store, &mut json, &mut mapping, rel, false, data, prefix);
                        },
                    }
                }
                i += 1;
            },
        }
    }
    finish_unpack(json, mapping)
}


/// A name that a pack holds as it is: kept on every platform, not a
/// folder, already in `/` form, and not the project file's.
pub open spec fn pack_entry_name(name: Seq<char>) -> bool {
    &&& stays_enclosed(name)
    &&& !names_folder(name)
    &&& joined(slash_names(name)) == name
    &&& name != PACK_PROJECT@
}

/// The store after the first `n` of `files` went into it under
/// `mem://<prefix>/<name>`.
pub open spec fn packed_store(
    store: Map<Seq<char>, Seq<u8>>,
    files: Seq<(String, Vec<u8>)>,
    prefix: Seq<char>,
    n: nat,
) -> Map<Seq<char>, Seq<u8>>
    decreases n,
{
    if n == 0 {
        store
    } else {
        packed_store(store, files, prefix, (n - 1) as nat).insert(unpacked_path(prefix, files[n - 1].0@), files[n - 1].1@)
    }
}

/// Each name of `files` with its memory path, in order.
pub open spec fn packed_mapping(files: Seq<(String, Vec<u8>)>, prefix: Seq<char>) -> Seq<(Seq<char>, Seq<char>)> {
    files.map_values(|f: (String, Vec<u8>)| (f.0@, unpacked_path(prefix, f.0@)))
}

/// Written in one go, a file holds its data.
proof fn lemma_writes_of(data: Seq<u8>)
    ensures
        writes_of(data).flatten() == data,
{
    if data.len() == 0 {
        assert(writes_of(data).flatten() =~= data);
    } else {
        let w = seq![data];
        assert(w.drop_first() =~= Seq::<Seq<u8>>::empty());
        assert(w.drop_first().flatten() =~= Seq::<u8>::empty());
        assert(w.first() == data);
        assert(w.flatten() =~= data);
    }
}

/// The project file's name stays as it is when a pack is opened.
proof fn lemma_pack_project_kept()
    ensures
        stays_enclosed(PACK_PROJECT@),
        !names_folder(PACK_PROJECT@),
        joined(slash_names(PACK_PROJECT@)) == PACK_PROJECT@,
{
    lemma_pack_project_name();
    let p = PACK_PROJECT@;
    assert(!p.contains('/')) by {
        if p.contains('/') {
            let k = choose|k: int| 0 <= k < p.len() && p[k] == '/';
            assert(is_plain_char(p[k]));
        }
    }
    assert(!p.contains('\\')) by {
        if p.contains('\\') {
            let k = choose|k: int| 0 <= k < p.len() && p[k] == '\\';
            assert(is_plain_char(p[k]));
        }
    }
    assert(!p.contains(':')) by {
        if p.contains(':') {
            let k = choose|k: int| 0 <= k < p.len() && p[k] == ':';
            assert(is_plain_char(p[k]));
        }
    }
    assert(!p.contains('\0')) by {
        if p.contains('\0') {
            let k = choose|k: int| 0 <= k < p.len() && p[k] == '\0';
            assert(is_plain_char(p[k]));
        }
    }
    lemma_single_name(p);
}

/// Opening the archive of a pack, file by file: after the project file
/// and the first `m` entries, the store holds those entries, the project
/// text is found and the mapping lists them.
proof fn lemma_round_trip_run(
    store: Map<Seq<char>, Seq<u8>>,
    project: Seq<char>,
    files: Seq<(String, Vec<u8>)>,
    bytes: Seq<u8>,
    rels: Seq<Option<Seq<char>>>,
    prefix: Seq<char>,
    m: nat,
)
    requires
        archive_reads_back(bytes, pack_files(vstd::utf8::encode_utf8(project), files)),
        forall|k: int| 0 <= k < files.len() ==> pack_entry_name(#[trigger] files[k].0@),
        rels_fit(bytes, rels),
        m <= files.len(),
    ensures
        unpack_run(
            (store, None, Seq::empty()),
            bytes,
            file_names(pack_files(vstd::utf8::encode_utf8(project), files)),
            rels,
            prefix,
            m + 1,
        ) == ((packed_store(store, files, prefix, m), Some(project), packed_mapping(files.take(m as int), prefix)), UnpackStop::Going),
    decreases m,
{
    let json = vstd::utf8::encode_utf8(project);
    let fs = pack_files(json, files);
    let names = file_names(fs);
    let init: UnpackState = (store, None, Seq::empty());
    assert(zip_listing(bytes) == Some(names));
    if m == 0 {
        lemma_pack_project_kept();
        assert(names[0] == PACK_PROJECT@);
        assert(stays_enclosed(names[0]));
        assert(rels[0] == Some(PACK_PROJECT@));
        assert(zip_file_opens(bytes, 0));
        assert(fs[0] == packed_file(PACK_PROJECT@, json));
        lemma_writes_of(json);
        assert(zip_file_data(bytes, 0) == Some(json));
        vstd::utf8::encode_utf8_valid_utf8(project);
        vstd::utf8::encode_utf8_decode_utf8(project);
        assert(text_of_bytes(json) == project);
        assert(unpack_run(init, bytes, names, rels, prefix, 0) == (init, UnpackStop::Going));
        assert(packed_mapping(files.take(0), prefix) =~= Seq::<(Seq<char>, Seq<char>)>::empty());
    } else {
        lemma_round_trip_run(store, project, files, bytes, rels, prefix, (m - 1) as nat);
        let f = files[m - 1];
        let name = f.0@;
        assert(pack_entry_name(name));
        assert(fs[m as int] == packed_file(name, f.1@));
        assert(names[m as int] == name);
        assert(stays_enclosed(names[m as int]));
        assert(rels[m as int] == Some(name));
        assert(zip_file_opens(bytes, m as int));
        lemma_writes_of(f.1@);
        assert(zip_file_data(bytes, m as int) == Some(f.1@));
        assert(packed_mapping(files.take(m as int), prefix) =~= packed_mapping(files.take(m - 1), prefix).push(
            (name, unpacked_path(prefix, name)),
        ));
    }
}

/// A different name gives a different memory path.
proof fn lemma_unpacked_path_injective(prefix: Seq<char>, a: Seq<char>, b: Seq<char>)
    requires
        a != b,
    ensures
        unpacked_path(prefix, a) != unpacked_path(prefix, b),
{
    let head = mem_prefix() + prefix + seq!['/'];
    assert(unpacked_path(prefix, a) == head + a);
    assert(unpacked_path(prefix, b) == head + b);
    if head + a == head + b {
        assert((head + a).skip(head.len() as int) =~= a);
        assert((head + b).skip(head.len() as int) =~= b);
    }
}

/// Later files with other names leave a file's memory path as it was.
proof fn lemma_packed_store_keeps(
    store: Map<Seq<char>, Seq<u8>>,
    files: Seq<(String, Vec<u8>)>,
    prefix: Seq<char>,
    k: int,
    n: nat,
)
    requires
        0 <= k < n <= files.len(),
        forall|a: int, b: int| 0 <= a < b < files.len() ==> files[a].0@ != files[b].0@,
    ensures
        packed_store(store, files, prefix, n).contains_key(unpacked_path(prefix, files[k].0@)),
        packed_store(store, files, prefix, n)[unpacked_path(prefix, files[k].0@)] == files[k].1@,
    decreases n,
{
    if k < n - 1 {
        lemma_packed_store_keeps(store, files, prefix, k, (n - 1) as nat);
        lemma_unpacked_path_injective(prefix, files[k].0@, files[n - 1].0@);
    }
}

/// Writing a pack and opening it gives its files back. When the archive
/// reads back the project file and the entries written into it (as
/// [`write_pack`] promises of its bytes), and every entry has a plain pack
/// name, opening it reads every file: the store gets each entry under
/// `mem://<prefix>/<name>`, the project text comes back as it was, and the
/// mapping pairs each name with its memory path, in order. With distinct
/// names, each memory path then holds its entry's data.
pub proof fn law_pack_round_trip(
    store: Map<Seq<char>, Seq<u8>>,
    project: Seq<char>,
    files: Seq<(String, Vec<u8>)>,
    bytes: Seq<u8>,
    rels: Seq<Option<Seq<char>>>,
    prefix: Seq<char>,
    end: Map<Seq<char>, Seq<u8>>,
    r: Result<Unpacked, AssetError>,
)
    requires
        archive_reads_back(bytes, pack_files(vstd::utf8::encode_utf8(project), files)),
        forall|k: int| 0 <= k < files.len() ==> pack_entry_name(#[trigger] files[k].0@),
        rels_fit(bytes, rels),
        unpack_outcome(store, bytes, rels, prefix, end, r),
    ensures
        end == packed_store(store, files, prefix, files.len()),
        r matches Ok(u) && u.json@ == project && entry_views(u.mapping@) == packed_mapping(files, prefix),
        (forall|a: int, b: int| 0 <= a < b < files.len() ==> files[a].0@ != files[b].0@) ==> forall|k: int|
            0 <= k < files.len() ==> {
                &&& end.contains_key(unpacked_path(prefix, #[trigger] files[k].0@))
                &&& end[unpacked_path(prefix, files[k].0@)] == files[k].1@
            },
{
    let fs = pack_files(vstd::utf8::encode_utf8(project), files);
    assert(zip_listing(bytes) == Some(file_names(fs)));
    assert(file_names(fs).len() == files.len() + 1);
    lemma_round_trip_run(store, project, files, bytes, rels, prefix, files.len());
    assert(files.take(files.len() as int) =~= files);
    if forall|a: int, b: int| 0 <= a < b < files.len() ==> files[a].0@ != files[b].0@ {
        assert forall|k: int| 0 <= k < files.len() implies {
            &&& end.contains_key(unpacked_path(prefix, #[trigger] files[k].0@))
            &&& end[unpacked_path(prefix, files[k].0@)] == files[k].1@
        } by {
            lemma_packed_store_keeps(store, files, prefix, k, files.len());
        }
    }
}

/// Opening a pack puts every asset it maps in memory: each pair of the
/// mapping leads from a name in the pack to `mem://<prefix>/<name>`, a
/// memory path the store holds afterwards.
pub proof fn law_unpacked_assets_are_in_memory(
    store: Map<Seq<char>, Seq<u8>>,
    files: Seq<(Option<Seq<char>>, bool, Seq<u8>)>,
    prefix: Seq<char>,
)
    ensures
        ({
            let (s, j, m) = unpack_all((store, None, Seq::empty()), files, prefix);
            forall|k: int| 0 <= k < m.len() ==> {
                &&& (#[trigger] m[k]).1 == unpacked_path(prefix, m[k].0)
                &&& s.contains_key(m[k].1)
                &&& crate::store::is_mem_path(m[k].1)
            }
        }),
    decreases files.len(),
{
    if files.len() > 0 {
        law_unpacked_assets_are_in_memory(store, files.drop_last(), prefix);
        let before = unpack_all((store, None, Seq::empty()), files.drop_last(), prefix);
        let after = unpack_all((store, None, Seq::empty()), files, prefix);
        let (s0, j0, m0) = before;
        let (s1, j1, m1) = after;
        assert forall|k: int| 0 <= k < m1.len() implies {
            &&& (#[trigger] m1[k]).1 == unpacked_path(prefix, m1[k].0)
            &&& s1.contains_key(m1[k].1)
            &&& crate::store::is_mem_path(m1[k].1)
        } by {
            if k < m0.len() {
                assert(m1[k] == m0[k]);
            }
            let p = m1[k].1;
            assert(p.subrange(0, 6) =~= mem_prefix());
        }
    }
}


/// One path taken into a list of distinct asset paths.
pub open spec fn collect_step(out: Seq<Seq<char>>, p: Seq<char>) -> Seq<Seq<char>> {
    if p.len() == 0 || out.contains(p) {
        out
    } else {
        out.push(p)
    }
}

/// The distinct non-empty paths of `paths`, in the order they first come.
pub open spec fn distinct_paths(paths: Seq<Seq<char>>) -> Seq<Seq<char>>
    decreases paths.len(),
{
    if paths.len() == 0 {
        Seq::empty()
    } else {
        collect_step(distinct_paths(paths.drop_last()), paths.last())
    }
}

/// Whether `out` already holds `p`.
fn holds(out: &Vec<String>, p: &str) -> (b: bool)
    ensures
        b == string_views(out@).contains(p@),
{
    let mut j: usize = 0;
    while j < out.len()
        invariant
            j <= out@.len(),
            forall|k: int| 0 <= k < j ==> out@[k]@ != p@,
        decreases out@.len() - j,
    {
        if str_eq(out[j].as_str(), p) {
            assert(string_views(out@)[j as int] == p@);
            return true;
        }
        j += 1;
    }
    proof {
        if string_views(out@).contains(p@) {
            let k = choose|k: int| 0 <= k < out@.len() && string_views(out@)[k] == p@;
            assert(out@[k]@ == p@);
        }
    }
    false
}

/// All distinct asset paths of a project, from its paths in the order it
/// lists them (empty paths are no assets).
pub fn asset_paths(all: &Vec<String>) -> (out: Vec<String>)
    ensures
        string_views(out@) == distinct_paths(string_views(all@)),
{
    let ghost ps = string_views(all@);
    let mut out: Vec<String> = Vec::new();
    let mut i: usize = 0;
    while i < all.len()
        invariant
            i <= all@.len(),
            ps == string_views(all@),
            string_views(out@) == distinct_paths(ps.take(i as int)),
        decreases all@.len() - i,
    {
        proof {
            assert(ps.take(i as int + 1).drop_last() =~= ps.take(i as int));
            assert(ps.take(i as int + 1).last() == all@[i as int]@);
        }
        let p: &String = &all[i];
        if !p.as_str().is_empty() && !holds(&out, p.as_str()) {
            let ghost before = string_views(out@);
            out.push(p.clone());
            assert(string_views(out@) =~= before.push(p@));
        }
        i += 1;
    }
    assert(ps.take(all@.len() as int) =~= ps);
    out
}

/// The asset paths of a project: none is empty, none comes twice, and
/// every non-empty path of the project is among them.
pub proof fn law_asset_paths_distinct(paths: Seq<Seq<char>>)
    ensures
        forall|k: int| 0 <= k < distinct_paths(paths).len() ==> (#[trigger] distinct_paths(paths)[k]).len() > 0,
        forall|a: int, b: int| 0 <= a < b < distinct_paths(paths).len() ==> distinct_paths(paths)[a] != distinct_paths(paths)[b],
        forall|k: int| 0 <= k < paths.len() && paths[k].len() > 0 ==> distinct_paths(paths).contains(#[trigger] paths[k]),
    decreases paths.len(),
{
    if paths.len() > 0 {
        let init = paths.drop_last();
        law_asset_paths_distinct(init);
        let d0 = distinct_paths(init);
        let d1 = distinct_paths(paths);
        assert forall|k: int| 0 <= k < d1.len() implies (#[trigger] d1[k]).len() > 0 by {
            if k < d0.len() {
                assert(d1[k] == d0[k]);
            }
        }
        assert forall|a: int, b: int| 0 <= a < b < d1.len() implies d1[a] != d1[b] by {
            if b < d0.len() {
                assert(d1[a] == d0[a] && d1[b] == d0[b]);
            } else {
                assert(d1[a] == d0[a]);
            }
        }
        assert forall|k: int| 0 <= k < paths.len() && paths[k].len() > 0 implies d1.contains(#[trigger] paths[k]) by {
            if k < paths.len() - 1 {
                assert(paths[k] == init[k]);
                assert(d0.contains(init[k]));
                let j = choose|j: int| 0 <= j < d0.len() && d0[j] == init[k];
                assert(d1[j] == d0[j]);
            } else if !d0.contains(paths.last()) {
                assert(d1[d0.len() as int] == paths.last());
            } else {
                let j = choose|j: int| 0 <= j < d0.len() && d0[j] == paths.last();
                assert(d1[j] == d0[j]);
            }
        }
    }
}

} // verus!

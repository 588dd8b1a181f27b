//! What the SteamCMD driver decides: where SteamCMD lives, which process to
//! stop, the command line of an update, the app manifest to read back and the
//! `installdir` it names, and how the `steamapps` link is put in place.
use vstd::prelude::*;
use std::io::Read;
use crate::text::{
    append_chars, append_str, chars_of, copy_range, decimal, decimal_chars, lines, lines_of,
    lines_view, starts_with, starts_with_chars, string_from_chars, trim, trim_chars,
};

verus! {

broadcast use vstd::string::group_string_axioms;

// ── the running SteamCMD process ───────────────────────────────────────────

/// The process to terminate when the SteamCMD slot holds `current_pid`
/// (0 when no SteamCMD process runs).
pub fn kill_current_steamcmd(current_pid: u32) -> (r: Option<u32>)
    ensures
        r == (if current_pid != 0 {
            Some(current_pid)
        } else {
            None::<u32>
        }),
{
    if current_pid != 0 {
        Some(current_pid)
    } else {
        None
    }
}

// ── paths ───────────────────────────────────────────────────────────────────

pub open spec fn is_path_separator(c: char) -> bool {
    c == '/' || c == '\\'
}

/// A path that neither platform reads as rooted or prefixed: empty or not
/// starting with a separator, and no colon second (so no drive).
pub open spec fn is_relative_part(s: Seq<char>) -> bool {
    &&& (s.len() == 0 || !is_path_separator(s[0]))
    &&& !(s.len() >= 2 && s[1] == ':')
}

/// `base` starts the way a Windows prefix does: two separators (a UNC or
/// device path), or a colon second (a drive).
pub open spec fn has_prefix_shape(base: Seq<char>) -> bool {
    base.len() >= 2 && ((is_path_separator(base[0]) && is_path_separator(base[1])) || base[1]
        == ':')
}

/// `base` begins with the verbatim prefix `\\?\`, under which Windows
/// normalises a path that is pushed onto.
pub open spec fn is_verbatim(base: Seq<char>) -> bool {
    base.len() >= 4 && base[0] == '\\' && base[1] == '\\' && base[2] == '?' && base[3] == '\\'
}

/// `base` is two characters, the second a colon: a bare drive such as
/// `C:` on Windows, onto which no separator is pushed there.
pub open spec fn is_bare_drive(base: Seq<char>) -> bool {
    base.len() == 2 && base[1] == ':'
}

/// `part` follows `base` after one path separator.
pub open spec fn joined_with_separator(base: Seq<char>, part: Seq<char>, r: Seq<char>) -> bool {
    exists|sep: char| is_path_separator(sep) && r == base + seq![sep] + part
}

/// `base` joined with the plain component `part`, for a base without the
/// verbatim prefix:
/// - an empty base, or one that ends in `/`, is followed directly by `part`;
/// - a base that ends in neither `/` nor `\` and is not a bare drive gets
///   one separator before `part`;
/// - otherwise (a final `\`, a bare drive) one of the two, by platform.
pub open spec fn joined(base: Seq<char>, part: Seq<char>, r: Seq<char>) -> bool {
    !is_verbatim(base) ==> {
        if base.len() == 0 || base.last() == '/' {
            r == base + part
        } else if base.last() != '\\' && !is_bare_drive(base) {
            joined_with_separator(base, part, r)
        } else {
            r == base + part || joined_with_separator(base, part, r)
        }
    }
}

/// What `PathBuf::join` gives for `base` and `part`, as far as it is the
/// same on every platform: a relative `part` is appended as `joined` says;
/// a `part` starting with `/` (absolute on Unix, rooted on Windows) replaces
/// a base without a prefix.
pub open spec fn join_spec(base: Seq<char>, part: Seq<char>, r: Seq<char>) -> bool {
    &&& is_relative_part(part) ==> joined(base, part, r)
    &&& (part.len() > 0 && part[0] == '/' && !has_prefix_shape(base)) ==> r == part
}

/// `PathBuf::join`, then `to_string_lossy` (lossless on UTF-8 input). The
/// std documentation of `PathBuf::push`: a relative path extends the path,
/// an absolute one replaces it, and on Windows a rooted path without a
/// prefix replaces all but the prefix of the base. So, unless the base has
/// the verbatim prefix, a relative `part` (an empty one included) is
/// appended: after one separator when the base neither is empty nor ends in
/// a separator nor is a bare drive, directly when it is empty or ends in `/`
/// (a separator on every platform); and a `part` starting with `/` replaces
/// a base without a prefix. Which separator is added, what happens after a
/// final `\` or a bare drive, to a `part` starting with `\` or holding a
/// drive, and under the verbatim prefix (where Windows normalises the path)
/// depends on the platform and is left open.
#[verifier::external_body]
fn path_join(base: &str, part: &str) -> (r: String)
    ensures
        join_spec(base@, part@, r@),
{
    std::path::PathBuf::from(base).join(part).to_string_lossy().into_owned()
}

/// The base directory for SteamCMD: the `ProgramData` value when there is
/// one, `C:\ProgramData` otherwise.
pub open spec fn program_data_dir(program_data: Option<&str>) -> Seq<char> {
    match program_data {
        Some(p) => p@,
        None => "C:\\ProgramData"@,
    }
}

/// `%ProgramData%\SteamCMD`, given the value of `ProgramData` (if set).
pub fn steamcmd_dir(program_data: Option<&str>) -> (d: String)
    ensures
        joined(program_data_dir(program_data), "SteamCMD"@, d@),
{
    let base: &str = match program_data {
        Some(p) => p,
        None => "C:\\ProgramData",
    };
    proof {
        reveal_strlit("SteamCMD");
    }
    path_join(base, "SteamCMD")
}

/// `%ProgramData%\SteamCMD\steamcmd.exe`, given the value of `ProgramData`.
pub fn steamcmd_exe(program_data: Option<&str>) -> (e: String)
    ensures
        exists|d: Seq<char>|
            joined(program_data_dir(program_data), "SteamCMD"@, d) && joined(
                d,
                "steamcmd.exe"@,
                e@,
            ),
{
    let dir = steamcmd_dir(program_data);
    proof {
        reveal_strlit("steamcmd.exe");
    }
    path_join(dir.as_str(), "steamcmd.exe")
}

// ── the SteamCMD archive ────────────────────────────────────────────────────

/// One entry of a zip archive: its name, whether it is a directory, and its
/// uncompressed contents (as far as they were read).
pub struct ArchiveEntry {
    pub name: String,
    pub is_dir: bool,
    pub data: Vec<u8>,
}

pub open spec fn archive_entry_view(e: ArchiveEntry) -> (Seq<char>, bool, Seq<u8>) {
    (e.name@, e.is_dir, e.data@)
}

/// Reading the zip archive held in `archive` entry by entry, as the `zip`
/// crate does: the entries read, in archive order, and the message of the
/// error that stopped the reading, if one did. An entry whose contents fail
/// to read is the last one, with the bytes read before the error.
pub uninterp spec fn zip_entries_of(archive: Seq<u8>) -> (
    Seq<(Seq<char>, bool, Seq<u8>)>,
    Option<Seq<char>>,
);

/// `zip::ZipArchive::new` over the bytes, then `by_index`, `name`, `is_dir`
/// and `read_to_end` for each entry in turn, stopping at the first error
/// (kept by its `Display` text). What comes out depends on the bytes alone,
/// and is named `zip_entries_of`.
#[verifier::external_body]
fn read_zip(archive: &[u8]) -> (r: (Vec<ArchiveEntry>, Option<String>))
    ensures
        zip_entries_of(archive@) == (
            r.0@.map_values(|e: ArchiveEntry| archive_entry_view(e)),
            match r.1 {
                Some(m) => Some(m@),
                None => None::<Seq<char>>,
            },
        ),
{
    let mut entries = Vec::new();
    let mut zip = match zip::ZipArchive::new(std::io::Cursor::new(archive)) {
        Ok(z) => z,
        Err(e) => return (entries, Some(e.to_string())),
    };
    for i in 0..zip.len() {
        let mut f = match zip.by_index(i) { Ok(f) => f, Err(e) => return (entries, Some(e.to_string())) };
        let mut data = Vec::new();
        let read = f.read_to_end(&mut data);
        entries.push(ArchiveEntry { name: f.name().to_string(), is_dir: f.is_dir(), data });
        if let Err(e) = read { return (entries, Some(e.to_string())); }
    }
    (entries, None)
}

/// One step of unpacking: create a directory, or write a file.
pub enum ExtractStep {
    CreateDir(String),
    WriteFile(String, Vec<u8>),
}

/// `st` unpacks the archive entry `e` into `dir`: a directory entry is
/// created, a file entry written with its contents, at `dir` joined with the
/// entry's name.
pub open spec fn step_follows(dir: Seq<char>, e: (Seq<char>, bool, Seq<u8>), st: ExtractStep) -> bool {
    match st {
        ExtractStep::CreateDir(path) => e.1 && join_spec(dir, e.0, path@),
        ExtractStep::WriteFile(path, data) => !e.1 && data@ == e.2 && join_spec(dir, e.0, path@),
    }
}

/// The steps that unpack `entries` into `dir`: one per entry, in order.
pub fn plan_steps(dir: &str, entries: &[ArchiveEntry]) -> (steps: Vec<ExtractStep>)
    ensures
        steps@.len() == entries@.len(),
        forall|k: int|
            0 <= k < entries@.len() ==> step_follows(
                dir@,
                archive_entry_view(entries@[k]),
                #[trigger] steps@[k],
            ),
{
    let mut steps: Vec<ExtractStep> = Vec::new();
    let mut k: usize = 0;
    while k < entries.len()
        invariant
            k <= entries@.len(),
            steps@.len() == k,
            forall|j: int|
                0 <= j < k ==> step_follows(dir@, archive_entry_view(entries@[j]), #[trigger] steps@[j]),
        decreases entries@.len() - k,
    {
        let e = &entries[k];
        let path = path_join(dir, e.name.as_str());
        if e.is_dir {
            steps.push(ExtractStep::CreateDir(path));
        } else {
            let data = e.data.clone();
            assert(data@ =~= e.data@);
            steps.push(ExtractStep::WriteFile(path, data));
        }
        k += 1;
    }
    steps
}

/// How the SteamCMD archive `archive` unpacks into `dir`: one step per entry
/// read, in archive order, then the error that stopped the reading, if any.
/// The steps before an error are still carried out.
pub fn extraction_plan(dir: &str, archive: &[u8]) -> (r: (Vec<ExtractStep>, Option<String>))
    ensures
        ({
            let (es, err) = zip_entries_of(archive@);
            &&& r.0@.len() == es.len()
            &&& forall|k: int| 0 <= k < es.len() ==> step_follows(dir@, es[k], #[trigger] r.0@[k])
            &&& err == match r.1 {
                Some(m) => Some(m@),
                None => None::<Seq<char>>,
            }
        }),
{
    let (entries, err) = read_zip(archive);
    let steps = plan_steps(dir, entries.as_slice());
    (steps, err)
}

/// The directory for the downloaded archive: `TEMP`, else `TMP`, else the
/// system default.
pub fn choose_temp_dir(temp: Option<String>, tmp: Option<String>, system_default: String) -> (d:
    String)
    ensures
        d == (match temp {
            Some(t) => t,
            None => match tmp {
                Some(t) => t,
                None => system_default,
            },
        }),
{
    match temp {
        Some(t) => t,
        None => match tmp {
            Some(t) => t,
            None => system_default,
        },
    }
}

// ── app manifests ───────────────────────────────────────────────────────────

/// The value of an `"installdir"` line: the line trims to the key followed
/// by a quoted value (after optional whitespace).
pub open spec fn installdir_of_line(l: Seq<char>) -> Option<Seq<char>> {
    let t = trim(l);
    let key = "\"installdir\""@;
    let rest = trim(t.skip(key.len() as int));
    if starts_with(t, key) && rest.len() >= 2 && rest[0] == '"' && rest.last() == '"' {
        Some(rest.subrange(1, rest.len() - 1))
    } else {
        None
    }
}

/// The value of the first `"installdir"` line among `ls`.
pub open spec fn first_installdir(ls: Seq<Seq<char>>) -> Option<Seq<char>>
    decreases ls.len(),
{
    if ls.len() == 0 {
        None
    } else {
        match installdir_of_line(ls[0]) {
            Some(v) => Some(v),
            None => first_installdir(ls.drop_first()),
        }
    }
}

fn installdir_of_line_exec(l: &[char], key: &[char]) -> (r: Option<Vec<char>>)
    requires
        key@ == "\"installdir\""@,
    ensures
        r matches Some(v) ==> installdir_of_line(l@) == Some(v@),
        r is None ==> installdir_of_line(l@) is None,
{
    let t = trim_chars(l);
    if !starts_with_chars(&t, key) {
        return None;
    }
    let after = copy_range(&t, key.len(), t.len());
    assert(after@ =~= t@.skip(key@.len() as int));
    let rest = trim_chars(&after);
    if rest.len() >= 2 && rest[0] == '"' && rest[rest.len() - 1] == '"' {
        Some(copy_range(&rest, 1, rest.len() - 1))
    } else {
        None
    }
}

/// The `"installdir"` value of a SteamCMD app manifest (or of
/// `+app_info_print` output): the quoted value of the first line whose
/// trimmed text starts with the key.
pub fn parse_installdir(text: &str) -> (r: Option<String>)
    ensures
        r matches Some(v) ==> first_installdir(lines(text@)) == Some(v@),
        r is None ==> first_installdir(lines(text@)) is None,
{
    let v = chars_of(text);
    let ls = lines_of(&v);
    let key = chars_of("\"installdir\"");
    let ghost lv = lines_view(ls@);
    let mut i: usize = 0;
    assert(lv.skip(0) =~= lv);
    while i < ls.len()
        invariant
            i <= ls@.len(),
            lv == lines_view(ls@),
            lv == lines(text@),
            key@ == "\"installdir\""@,
            first_installdir(lv) == first_installdir(lv.skip(i as int)),
        decreases ls@.len() - i,
    {
        assert(lv.skip(i as int).drop_first() =~= lv.skip(i + 1));
        assert(lv.skip(i as int)[0] == ls@[i as int]@);
        match installdir_of_line_exec(&ls[i], &key) {
            Some(value) => {
                return Some(string_from_chars(&value));
            },
            None => {},
        }
        i += 1;
    }
    None
}

/// `appmanifest_<id>.acf`.
pub open spec fn appmanifest_name_spec(app_id: u32) -> Seq<char> {
    "appmanifest_"@ + decimal(app_id as nat) + ".acf"@
}

/// The file name of the app manifest that SteamCMD writes for `app_id`.
pub fn appmanifest_name(app_id: u32) -> (s: String)
    ensures
        s@ == appmanifest_name_spec(app_id),
{
    let mut v: Vec<char> = Vec::new();
    append_str(&mut v, "appmanifest_");
    let d = decimal_chars(app_id);
    append_chars(&mut v, &d);
    append_str(&mut v, ".acf");
    assert(v@ =~= appmanifest_name_spec(app_id));
    string_from_chars(&v)
}

/// The SteamCMD arguments that log in, update and validate one app, then
/// quit.
pub open spec fn update_args_spec(login: Seq<char>, password: Seq<char>, app_id: u32) -> Seq<
    Seq<char>,
> {
    seq![
        "+login"@,
        login,
        password,
        "+app_update"@,
        decimal(app_id as nat),
        "validate"@,
        "+quit"@,
    ]
}

/// The command line for `steamcmd.exe` that updates `app_id` as `login`.
pub fn steamcmd_update_args(login: &str, password: &str, app_id: u32) -> (args: Vec<String>)
    ensures
        args@.map_values(|a: String| a@) == update_args_spec(login@, password@, app_id),
{
    let mut args: Vec<String> = Vec::new();
    args.push("+login".to_owned());
    args.push(login.to_owned());
    args.push(password.to_owned());
    args.push("+app_update".to_owned());
    let d = decimal_chars(app_id);
    args.push(string_from_chars(&d));
    args.push("validate".to_owned());
    args.push("+quit".to_owned());
    assert(args@.map_values(|a: String| a@) =~= update_args_spec(login@, password@, app_id));
    args
}

// ── the steamapps link ──────────────────────────────────────────────────────

/// What stands at `<steamcmd_dir>\steamapps`.
pub enum SteamappsEntry {
    /// Nothing.
    Missing,
    /// A symbolic link; `to_target` when it points at the library's
    /// `steamapps`.
    Link { to_target: bool },
    /// Anything else, such as a real directory left by an older layout.
    Other,
}

/// What to do to make `<steamcmd_dir>\steamapps` a link to the library.
#[derive(PartialEq, Eq, Debug)]
pub enum LinkPlan {
    /// The link is already correct.
    Keep,
    /// Remove the wrong link, then create the link.
    Replace,
    /// Copy the app manifests over, remove the directory, then create the link.
    MigrateThenCreate,
    /// Create the link.
    Create,
}

pub open spec fn link_plan_spec(entry: SteamappsEntry) -> LinkPlan {
    match entry {
        SteamappsEntry::Missing => LinkPlan::Create,
        SteamappsEntry::Link { to_target } => if to_target {
            LinkPlan::Keep
        } else {
            LinkPlan::Replace
        },
        SteamappsEntry::Other => LinkPlan::MigrateThenCreate,
    }
}

pub fn link_plan(entry: SteamappsEntry) -> (p: LinkPlan)
    ensures
        p == link_plan_spec(entry),
{
    match entry {
        SteamappsEntry::Missing => LinkPlan::Create,
        SteamappsEntry::Link { to_target } => if to_target {
            LinkPlan::Keep
        } else {
            LinkPlan::Replace
        },
        SteamappsEntry::Other => LinkPlan::MigrateThenCreate,
    }
}

pub open spec fn ends_with(s: Seq<char>, suffix: Seq<char>) -> bool {
    suffix.len() <= s.len() && s.skip(s.len() - suffix.len()) == suffix
}

/// A file of the old `steamapps` directory is copied over when it is an app
/// manifest (`.acf`) that the library does not hold yet.
pub fn should_migrate(file_name: &str, dest_exists: bool) -> (b: bool)
    ensures
        b == (ends_with(file_name@, ".acf"@) && !dest_exists),
{
    let name = chars_of(file_name);
    let suffix = chars_of(".acf");
    if dest_exists || suffix.len() > name.len() {
        return false;
    }
    let tail = copy_range(&name, name.len() - suffix.len(), name.len());
    let mut k: usize = 0;
    while k < suffix.len()
        invariant
            name@ == file_name@,
            suffix@ == ".acf"@,
            suffix@.len() <= name@.len(),
            !dest_exists,
            tail@.len() == suffix@.len(),
            tail@ == name@.subrange(name@.len() - suffix@.len(), name@.len() as int),
            k <= suffix@.len(),
            forall|m: int| 0 <= m < k ==> tail@[m] == suffix@[m],
        decreases suffix@.len() - k,
    {
        if tail[k] != suffix[k] {
            assert(name@.skip(name@.len() - suffix@.len()) =~= tail@);
            assert(tail@[k as int] != suffix@[k as int]);
            assert(tail@ != suffix@);
            return false;
        }
        k += 1;
    }
    assert(tail@ =~= suffix@);
    assert(name@.skip(name@.len() - suffix@.len()) =~= tail@);
    true
}

} // verus!

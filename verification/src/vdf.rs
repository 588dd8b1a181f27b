//! Targeted editing of Valve's `libraryfolders.vdf` KeyValues text: register
//! a library folder and make sure that its `apps` block lists given App IDs.
//!
//! The edits are line based, like the format Steam and SteamCMD write: a
//! library entry is found by its `"path"` line, its `apps` block by the
//! `"apps"`, `{` and `}` lines that follow it.
use vstd::prelude::*;
use crate::text::{
    append_chars, append_str, chars_of, contains, contains_chars, copy_range, decimal,
    decimal_chars, has_no_newline, join_lines, join_lines_exec, lemma_contains_concat,
    lemma_contains_from_line, lemma_contains_in_piece, lemma_contains_join,
    lemma_join_contains_line, lemma_line_between, lemma_lines_append, lemma_lines_join,
    lemma_lines_no_newline, lemma_lines_no_newline_each, lemma_lines_of_prefix,
    lemma_lines_prefix_line, lemma_trim_end_prefix, lemma_trim_of, lemma_trim_strip_cr,
    lemma_contains_trim, lines, lines_of, lines_view, occurs_at, strip_cr,
    string_from_chars, trim, trim_chars, trim_end, trim_end_chars, utf8_offset,
    lemma_encode_utf8_concat, lemma_encode_utf8_single,
};
use vstd::utf8::{encode_scalar, encode_utf8};

verus! {

broadcast use vstd::string::group_string_axioms;

// ── model ───────────────────────────────────────────────────────────────────

/// A Windows path as it is written inside a KV string: every backslash
/// doubled.
pub open spec fn escape_path_spec(p: Seq<char>) -> Seq<char>
    decreases p.len(),
{
    if p.len() == 0 {
        Seq::empty()
    } else {
        escape_path_spec(p.drop_last()) + if p.last() == '\\' {
            seq!['\\', '\\']
        } else {
            seq![p.last()]
        }
    }
}

pub open spec fn quoted(s: Seq<char>) -> Seq<char> {
    seq!['"'] + s + seq!['"']
}

/// A line that holds the `"path"` key and the quoted escaped library path.
pub open spec fn is_path_line(l: Seq<char>, escaped: Seq<char>) -> bool {
    contains(l, "\"path\""@) && contains(l, quoted(escaped))
}

/// Index of the first path line for `escaped` at or after `from`.
pub open spec fn find_path_line(ls: Seq<Seq<char>>, escaped: Seq<char>, from: int) -> Option<int>
    decreases ls.len() - from,
{
    if from < 0 || from >= ls.len() {
        None
    } else if is_path_line(ls[from], escaped) {
        Some(from)
    } else {
        find_path_line(ls, escaped, from + 1)
    }
}

/// Index of the first line at or after `from` that trims to `target`.
pub open spec fn find_trimmed(ls: Seq<Seq<char>>, from: int, target: Seq<char>) -> Option<int>
    decreases ls.len() - from,
{
    if from < 0 || from >= ls.len() {
        None
    } else if trim(ls[from]) == target {
        Some(from)
    } else {
        find_trimmed(ls, from + 1, target)
    }
}

/// The library whose escaped path is `escaped` is registered in `vdf`.
pub open spec fn is_registered(vdf: Seq<char>, escaped: Seq<char>) -> bool {
    find_path_line(lines(vdf), escaped, 0) is Some
}

/// The line that lists an App ID in an `apps` block.
pub open spec fn app_line(id: u32) -> Seq<char> {
    "\t\t\t\""@ + decimal(id as nat) + "\"\t\t\"0\""@
}

/// The lines to add to an `apps` block whose text is `block`: one for each
/// ID of `ids`, in order, whose quoted decimal does not occur in `block`.
pub open spec fn missing_app_lines(block: Seq<char>, ids: Seq<u32>) -> Seq<Seq<char>>
    decreases ids.len(),
{
    if ids.len() == 0 {
        Seq::empty()
    } else {
        let rest = missing_app_lines(block, ids.drop_last());
        if contains(block, quoted(decimal(ids.last() as nat))) {
            rest
        } else {
            rest.push(app_line(ids.last()))
        }
    }
}

/// Where the `apps` block of the library registered under `escaped` stands:
/// the indices of its `"apps"`, `{` and `}` lines.
pub open spec fn apps_block(ls: Seq<Seq<char>>, escaped: Seq<char>) -> Option<(int, int, int)> {
    match find_path_line(ls, escaped, 0) {
        None => None,
        Some(p) => match find_trimmed(ls, p, "\"apps\""@) {
            None => None,
            Some(a) => match find_trimmed(ls, a + 1, "{"@) {
                None => None,
                Some(o) => match find_trimmed(ls, o + 1, "}"@) {
                    None => None,
                    Some(c) => Some((a, o, c)),
                },
            },
        },
    }
}

/// The text of an `apps` block, from its `{` line to its `}` line.
pub open spec fn block_text(ls: Seq<Seq<char>>, o: int, c: int) -> Seq<char> {
    join_lines(ls.subrange(o, c + 1))
}

/// `vdf` with the missing App ID lines inserted before the closing line of
/// the `apps` block of the library registered under `escaped`; `vdf`
/// unchanged when there is no such block or nothing is missing.
pub open spec fn ensure_apps_spec(vdf: Seq<char>, escaped: Seq<char>, ids: Seq<u32>) -> Seq<char> {
    let ls = lines(vdf);
    match apps_block(ls, escaped) {
        None => vdf,
        Some((a, o, c)) => {
            let ins = missing_app_lines(block_text(ls, o, c), ids);
            if ins.len() == 0 {
                vdf
            } else {
                join_lines(ls.take(c) + ins + ls.skip(c))
            }
        },
    }
}

pub open spec fn is_digit(c: char) -> bool {
    '0' <= c && c <= '9'
}

pub open spec fn all_digits(s: Seq<char>) -> bool {
    forall|k: int| 0 <= k < s.len() ==> is_digit(#[trigger] s[k])
}

pub open spec fn digit_value(c: char) -> nat {
    if is_digit(c) {
        ((c as u32) - 48) as nat
    } else {
        0
    }
}

/// The number that a string of decimal digits denotes.
pub open spec fn digits_value(s: Seq<char>) -> nat
    decreases s.len(),
{
    if s.len() == 0 {
        0
    } else {
        digits_value(s.drop_last()) * 10 + digit_value(s.last())
    }
}

/// The library index a line declares: the line trims to a quoted run of
/// decimal digits whose value fits in a `u32`.
pub open spec fn index_key(l: Seq<char>) -> Option<nat> {
    let t = trim(l);
    let inner = t.subrange(1, t.len() - 1);
    if t.len() >= 3 && t[0] == '"' && t.last() == '"' && all_digits(inner) && digits_value(inner)
        <= u32::MAX {
        Some(digits_value(inner))
    } else {
        None
    }
}

/// The greatest library index that the lines declare, 0 if none.
pub open spec fn max_index(ls: Seq<Seq<char>>) -> nat
    decreases ls.len(),
{
    if ls.len() == 0 {
        0
    } else {
        let m = max_index(ls.drop_last());
        match index_key(ls.last()) {
            Some(n) => if n > m {
                n
            } else {
                m
            },
            None => m,
        }
    }
}

/// Position of the last `c` in `s`.
pub open spec fn last_index_of(s: Seq<char>, c: char) -> Option<int>
    decreases s.len(),
{
    if s.len() == 0 {
        None
    } else if s.last() == c {
        Some(s.len() - 1)
    } else {
        last_index_of(s.drop_last(), c)
    }
}

pub open spec fn entry_head(index: nat) -> Seq<char> {
    "\t\""@ + decimal(index) + "\"\n\t{\n\t\t\"path\"\t\t\""@
}

pub open spec fn entry_middle() -> Seq<char> {
    "\"\n\t\t\"label\"\t\t\"\"\n\t\t\"contentid\"\t\t\"0\"\n\t\t\"totalsize\"\t\t\"0\"\n\t\t\"update_clean_bytes_tally\"\t\t\"0\"\n\t\t\"time_last_update_corruption\"\t\t\"0\"\n\t\t\"apps\"\n\t\t{\n"@
}

pub open spec fn entry_tail() -> Seq<char> {
    "\t\t}\n\t}\n"@
}

/// The lines of an `apps` block body, each followed by a newline.
pub open spec fn apps_body(ids: Seq<u32>) -> Seq<char>
    decreases ids.len(),
{
    if ids.len() == 0 {
        Seq::empty()
    } else {
        apps_body(ids.drop_last()) + app_line(ids.last()) + seq!['\n']
    }
}

/// A complete library folder entry.
pub open spec fn library_entry(index: nat, escaped: Seq<char>, ids: Seq<u32>) -> Seq<char> {
    entry_head(index) + escaped + entry_middle() + apps_body(ids) + entry_tail()
}

/// The whole edit: for a registered library, `ensure_apps_spec`; otherwise
/// a new entry, numbered one above the greatest index, inserted before the
/// last `}` (or appended after the trimmed text when there is none).
pub open spec fn apply_library_spec(vdf: Seq<char>, library_root: Seq<char>, ids: Seq<u32>) -> Seq<
    char,
> {
    let escaped = escape_path_spec(library_root);
    if is_registered(vdf, escaped) {
        ensure_apps_spec(vdf, escaped, ids)
    } else {
        let entry = library_entry(max_index(lines(vdf)) + 1, escaped, ids);
        match last_index_of(vdf, '}') {
            Some(pos) => vdf.take(pos) + entry + vdf.skip(pos),
            None => trim_end(vdf) + seq!['\n'] + entry,
        }
    }
}

/// `apply_library` can number a new entry without overflow.
pub open spec fn can_apply(vdf: Seq<char>, library_root: Seq<char>) -> bool {
    is_registered(vdf, escape_path_spec(library_root)) || max_index(lines(vdf)) < u32::MAX
}

// ── executable ──────────────────────────────────────────────────────────────

/// A minimal `libraryfolders.vdf` with no library entries.
pub fn skeleton_vdf() -> (s: String)
    ensures
        s@ == "\"libraryfolders\"\n{\n}\n"@,
{
    "\"libraryfolders\"\n{\n}\n".to_owned()
}

fn escape_chars(p: &[char]) -> (e: Vec<char>)
    ensures
        e@ == escape_path_spec(p@),
{
    let mut e: Vec<char> = Vec::new();
    let mut i: usize = 0;
    assert(p@.take(0) =~= Seq::<char>::empty());
    while i < p.len()
        invariant
            i <= p@.len(),
            e@ == escape_path_spec(p@.take(i as int)),
        decreases p@.len() - i,
    {
        assert(p@.take(i + 1).drop_last() =~= p@.take(i as int));
        if p[i] == '\\' {
            e.push('\\');
            e.push('\\');
            assert(e@ =~= escape_path_spec(p@.take(i + 1)));
        } else {
            e.push(p[i]);
            assert(e@ =~= escape_path_spec(p@.take(i + 1)));
        }
        i += 1;
    }
    assert(p@.take(p@.len() as int) =~= p@);
    e
}

/// Escapes a Windows path for a KV string value: backslashes doubled.
pub fn escape_path(path: &str) -> (e: String)
    ensures
        e@ == escape_path_spec(path@),
{
    let p = chars_of(path);
    let e = escape_chars(&p);
    string_from_chars(&e)
}

fn quoted_chars(s: &[char]) -> (q: Vec<char>)
    ensures
        q@ == quoted(s@),
{
    let mut q: Vec<char> = Vec::new();
    q.push('"');
    append_chars(&mut q, s);
    q.push('"');
    assert(q@ =~= quoted(s@));
    q
}

fn is_path_line_exec(l: &[char], path_key: &[char], needle: &[char]) -> (b: bool)
    requires
        path_key@ == "\"path\""@,
    ensures
        b == (contains(l@, path_key@) && contains(l@, needle@)),
{
    contains_chars(l, path_key) && contains_chars(l, needle)
}

fn find_path_line_exec(ls: &Vec<Vec<char>>, escaped: &[char]) -> (r: Option<usize>)
    ensures
        r matches Some(i) ==> find_path_line(lines_view(ls@), escaped@, 0) == Some(i as int)
            && i < ls@.len(),
        r is None ==> find_path_line(lines_view(ls@), escaped@, 0) is None,
{
    let path_key = chars_of("\"path\"");
    let needle = quoted_chars(escaped);
    let mut i: usize = 0;
    while i < ls.len()
        invariant
            i <= ls@.len(),
            path_key@ == "\"path\""@,
            needle@ == quoted(escaped@),
            find_path_line(lines_view(ls@), escaped@, 0) == find_path_line(
                lines_view(ls@),
                escaped@,
                i as int,
            ),
        decreases ls@.len() - i,
    {
        if is_path_line_exec(&ls[i], &path_key, &needle) {
            return Some(i);
        }
        i += 1;
    }
    None
}

fn find_trimmed_exec(ls: &Vec<Vec<char>>, from: usize, target: &[char]) -> (r: Option<usize>)
    ensures
        r matches Some(i) ==> find_trimmed(lines_view(ls@), from as int, target@) == Some(
            i as int,
        ) && from <= i < ls@.len(),
        r is None ==> find_trimmed(lines_view(ls@), from as int, target@) is None,
{
    let mut i: usize = from;
    while i < ls.len()
        invariant
            from <= i,
            find_trimmed(lines_view(ls@), from as int, target@) == find_trimmed(
                lines_view(ls@),
                i as int,
                target@,
            ),
        decreases ls@.len() - i,
    {
        let t = trim_chars(&ls[i]);
        if chars_eq(&t, target) {
            return Some(i);
        }
        i += 1;
    }
    None
}

fn chars_eq(a: &[char], b: &[char]) -> (r: bool)
    ensures
        r == (a@ == b@),
{
    if a.len() != b.len() {
        return false;
    }
    let mut k: usize = 0;
    while k < a.len()
        invariant
            a@.len() == b@.len(),
            k <= a@.len(),
            forall|m: int| 0 <= m < k ==> a@[m] == b@[m],
        decreases a@.len() - k,
    {
        if a[k] != b[k] {
            return false;
        }
        k += 1;
    }
    assert(a@ =~= b@);
    true
}

fn app_line_chars(id: u32) -> (v: Vec<char>)
    ensures
        v@ == app_line(id),
{
    let mut v: Vec<char> = Vec::new();
    append_str(&mut v, "\t\t\t\"");
    let d = decimal_chars(id);
    append_chars(&mut v, &d);
    append_str(&mut v, "\"\t\t\"0\"");
    assert(v@ =~= app_line(id));
    v
}

/// Copies of `ls[lo..hi]`.
fn copy_lines(ls: &Vec<Vec<char>>, lo: usize, hi: usize, out: &mut Vec<Vec<char>>)
    requires
        lo <= hi <= ls@.len(),
    ensures
        lines_view(final(out)@) == lines_view(old(out)@) + lines_view(ls@).subrange(
            lo as int,
            hi as int,
        ),
{
    let mut i = lo;
    while i < hi
        invariant
            lo <= i <= hi <= ls@.len(),
            lines_view(out@) == lines_view(old(out)@) + lines_view(ls@).subrange(
                lo as int,
                i as int,
            ),
        decreases hi - i,
    {
        let l = copy_range(&ls[i], 0, ls[i].len());
        proof {
            assert(l@ =~= ls@[i as int]@);
        }
        let ghost before = lines_view(out@);
        out.push(l);
        assert(lines_view(out@) =~= before.push(ls@[i as int]@));
        assert(lines_view(ls@).subrange(lo as int, i + 1) =~= lines_view(ls@).subrange(
            lo as int,
            i as int,
        ).push(ls@[i as int]@));
        i += 1;
    }
}

fn missing_app_lines_exec(block: &[char], ids: &[u32]) -> (ins: Vec<Vec<char>>)
    ensures
        lines_view(ins@) == missing_app_lines(block@, ids@),
{
    let mut ins: Vec<Vec<char>> = Vec::new();
    let mut k: usize = 0;
    assert(ids@.take(0) =~= Seq::<u32>::empty());
    while k < ids.len()
        invariant
            k <= ids@.len(),
            lines_view(ins@) == missing_app_lines(block@, ids@.take(k as int)),
        decreases ids@.len() - k,
    {
        assert(ids@.take(k + 1).drop_last() =~= ids@.take(k as int));
        let id = ids[k];
        let d = decimal_chars(id);
        let key = quoted_chars(&d);
        if !contains_chars(block, &key) {
            let line = app_line_chars(id);
            let ghost before = lines_view(ins@);
            ins.push(line);
            assert(lines_view(ins@) =~= before.push(app_line(id)));
        }
        k += 1;
    }
    assert(ids@.take(ids@.len() as int) =~= ids@);
    ins
}

fn ensure_apps_chars(vdf: &[char], escaped: &[char], app_ids: &[u32]) -> (r: Vec<char>)
    ensures
        r@ == ensure_apps_spec(vdf@, escaped@, app_ids@),
{
    let ls = lines_of(vdf);
    let n = ls.len();
    let ghost lv = lines_view(ls@);
    let p = match find_path_line_exec(&ls, escaped) {
        Some(p) => p,
        None => return copy_range(vdf, 0, vdf.len()),
    };
    let apps_key = chars_of("\"apps\"");
    let a = match find_trimmed_exec(&ls, p, &apps_key) {
        Some(a) => a,
        None => return copy_range(vdf, 0, vdf.len()),
    };
    let open_key = chars_of("{");
    assert(a < n);
    let o = match find_trimmed_exec(&ls, a + 1, &open_key) {
        Some(o) => o,
        None => return copy_range(vdf, 0, vdf.len()),
    };
    let close_key = chars_of("}");
    assert(o < n);
    let c = match find_trimmed_exec(&ls, o + 1, &close_key) {
        Some(c) => c,
        None => return copy_range(vdf, 0, vdf.len()),
    };
    assert(apps_block(lv, escaped@) == Some((a as int, o as int, c as int)));
    assert(c < n);
    let mut block_lines: Vec<Vec<char>> = Vec::new();
    copy_lines(&ls, o, c + 1, &mut block_lines);
    assert(lines_view(block_lines@) =~= lv.subrange(o as int, c + 1));
    let block = join_lines_exec(&block_lines);
    let ins = missing_app_lines_exec(&block, app_ids);
    if ins.len() == 0 {
        return copy_range(vdf, 0, vdf.len());
    }
    let mut all: Vec<Vec<char>> = Vec::new();
    copy_lines(&ls, 0, c, &mut all);
    copy_lines(&ins, 0, ins.len(), &mut all);
    copy_lines(&ls, c, ls.len(), &mut all);
    assert(lines_view(all@) =~= lv.take(c as int) + lines_view(ins@) + lv.skip(c as int));
    join_lines_exec(&all)
}

/// For a registered library, adds a line to its `apps` block for every App
/// ID whose quoted number the block does not hold yet.
pub fn ensure_apps_in_entry(vdf: &str, escaped_path: &str, app_ids: &[u32]) -> (r: String)
    ensures
        r@ == ensure_apps_spec(vdf@, escaped_path@, app_ids@),
{
    let v = chars_of(vdf);
    let e = chars_of(escaped_path);
    let r = ensure_apps_chars(&v, &e, app_ids);
    string_from_chars(&r)
}

proof fn lemma_digits_value_monotone(s: Seq<char>, a: int, b: int)
    requires
        0 <= a <= b <= s.len(),
    ensures
        digits_value(s.take(a)) <= digits_value(s.take(b)),
    decreases b - a,
{
    if a < b {
        lemma_digits_value_monotone(s, a, b - 1);
        assert(s.take(b).drop_last() =~= s.take(b - 1));
    }
}

/// The value of a run of decimal digits when it fits in a `u32`.
fn parse_index(inner: &[char]) -> (r: Option<u32>)
    ensures
        r matches Some(n) ==> all_digits(inner@) && digits_value(inner@) == n,
        r is None ==> !(all_digits(inner@) && digits_value(inner@) <= u32::MAX),
{
    let mut val: u64 = 0;
    let mut k: usize = 0;
    assert(inner@.take(0) =~= Seq::<char>::empty());
    while k < inner.len()
        invariant
            k <= inner@.len(),
            all_digits(inner@.take(k as int)),
            val == digits_value(inner@.take(k as int)),
            val <= u32::MAX,
        decreases inner@.len() - k,
    {
        let c = inner[k];
        if !('0' <= c && c <= '9') {
            assert(!is_digit(inner@[k as int]));
            return None;
        }
        assert(inner@.take(k + 1).drop_last() =~= inner@.take(k as int));
        let d = ((c as u32) - 48) as u64;
        let nv = val * 10 + d;
        if nv > 4294967295u64 {
            proof {
                lemma_digits_value_monotone(inner@, k + 1, inner@.len() as int);
                assert(inner@.take(inner@.len() as int) =~= inner@);
            }
            return None;
        }
        val = nv;
        k += 1;
        assert(all_digits(inner@.take(k as int))) by {
            assert forall|m: int| 0 <= m < k implies is_digit(#[trigger] inner@.take(k as int)[m]) by {
                if m < k - 1 {
                    assert(inner@.take(k as int)[m] == inner@.take(k - 1)[m]);
                }
            }
        }
    }
    assert(inner@.take(inner@.len() as int) =~= inner@);
    Some(val as u32)
}

/// The library index declared by one line, if any.
fn index_key_exec(l: &[char]) -> (r: Option<u32>)
    ensures
        r matches Some(n) ==> index_key(l@) == Some(n as nat),
        r is None ==> index_key(l@) is None,
{
    let t = trim_chars(l);
    if t.len() < 3 || t[0] != '"' || t[t.len() - 1] != '"' {
        return None;
    }
    let inner = copy_range(&t, 1, t.len() - 1);
    parse_index(&inner)
}

/// The greatest library index declared by a line of `vdf` (a line that trims
/// to a quoted number), 0 if there is none.
pub fn max_library_index(vdf: &str) -> (m: u32)
    ensures
        m == max_index(lines(vdf@)),
{
    let v = chars_of(vdf);
    let ls = lines_of(&v);
    let ghost lv = lines_view(ls@);
    let mut m: u32 = 0;
    let mut i: usize = 0;
    assert(lv.take(0) =~= Seq::<Seq<char>>::empty());
    while i < ls.len()
        invariant
            i <= ls@.len(),
            lv == lines_view(ls@),
            m == max_index(lv.take(i as int)),
        decreases ls@.len() - i,
    {
        assert(lv.take(i + 1).drop_last() =~= lv.take(i as int));
        if let Some(n) = index_key_exec(&ls[i]) {
            if n > m {
                m = n;
            }
        }
        i += 1;
    }
    assert(lv.take(ls@.len() as int) =~= lv);
    m
}

/// The index for a new library entry: one above the greatest declared.
pub fn next_library_index(vdf: &str) -> (n: u32)
    requires
        max_index(lines(vdf@)) < u32::MAX,
    ensures
        n == max_index(lines(vdf@)) + 1,
{
    let m = max_library_index(vdf);
    m + 1
}

fn last_index_exec(s: &[char], c: char) -> (r: Option<usize>)
    ensures
        r matches Some(i) ==> last_index_of(s@, c) == Some(i as int) && i < s@.len(),
        r is None ==> last_index_of(s@, c) is None,
{
    let mut j: usize = s.len();
    assert(s@.take(s@.len() as int) =~= s@);
    while j > 0
        invariant
            j <= s@.len(),
            last_index_of(s@, c) == last_index_of(s@.take(j as int), c),
        decreases j,
    {
        if s[j - 1] == c {
            return Some(j - 1);
        }
        assert(s@.take(j as int).drop_last() =~= s@.take(j - 1));
        j -= 1;
    }
    None
}

/// Byte offset of the last `}` of the text, the closer of the root block:
/// the length in UTF-8 of the characters before it. The byte there is `}`.
pub fn last_closing_brace(vdf: &str) -> (r: Option<usize>)
    ensures
        r is None <==> last_index_of(vdf@, '}') is None,
        r matches Some(b) ==> {
            &&& last_index_of(vdf@, '}') matches Some(i)
            &&& b == encode_utf8(vdf@.take(i)).len()
            &&& b < encode_utf8(vdf@).len()
            &&& encode_utf8(vdf@)[b as int] == 0x7Du8
        },
{
    let v = chars_of(vdf);
    match last_index_exec(&v, '}') {
        None => None,
        Some(i) => {
            let b = utf8_offset(vdf, &v, i);
            proof {
                let s = vdf@;
                let pre = s.take(i as int);
                let post = s.skip(i + 1);
                lemma_last_index_of_range(s, '}');
                assert(s =~= pre + (seq!['}'] + post));
                lemma_encode_utf8_concat(pre, seq!['}'] + post);
                lemma_encode_utf8_concat(seq!['}'], post);
                lemma_encode_utf8_single('}');
                assert(('}' as u32) == 125u32);
                assert((125u32 & 0x7F) as u8 == 0x7Du8) by (bit_vector);
                assert(encode_scalar(125u32) =~= seq![0x7Du8]);
                assert(encode_utf8(s)[encode_utf8(pre).len() as int] == 0x7Du8);
            }
            Some(b)
        },
    }
}

fn apps_body_chars(ids: &[u32]) -> (v: Vec<char>)
    ensures
        v@ == apps_body(ids@),
{
    let mut v: Vec<char> = Vec::new();
    let mut k: usize = 0;
    assert(ids@.take(0) =~= Seq::<u32>::empty());
    while k < ids.len()
        invariant
            k <= ids@.len(),
            v@ == apps_body(ids@.take(k as int)),
        decreases ids@.len() - k,
    {
        assert(ids@.take(k + 1).drop_last() =~= ids@.take(k as int));
        let line = app_line_chars(ids[k]);
        append_chars(&mut v, &line);
        v.push('\n');
        assert(v@ =~= apps_body(ids@.take(k + 1)));
        k += 1;
    }
    assert(ids@.take(ids@.len() as int) =~= ids@);
    v
}

fn library_entry_chars(index: u32, escaped: &[char], app_ids: &[u32]) -> (v: Vec<char>)
    ensures
        v@ == library_entry(index as nat, escaped@, app_ids@),
{
    let mut v: Vec<char> = Vec::new();
    append_str(&mut v, "\t\"");
    let d = decimal_chars(index);
    append_chars(&mut v, &d);
    append_str(&mut v, "\"\n\t{\n\t\t\"path\"\t\t\"");
    assert(v@ =~= entry_head(index as nat));
    append_chars(&mut v, escaped);
    append_str(
        &mut v,
        "\"\n\t\t\"label\"\t\t\"\"\n\t\t\"contentid\"\t\t\"0\"\n\t\t\"totalsize\"\t\t\"0\"\n\t\t\"update_clean_bytes_tally\"\t\t\"0\"\n\t\t\"time_last_update_corruption\"\t\t\"0\"\n\t\t\"apps\"\n\t\t{\n",
    );
    let body = apps_body_chars(app_ids);
    append_chars(&mut v, &body);
    append_str(&mut v, "\t\t}\n\t}\n");
    v
}

/// A fully formed library folder entry with the given index, escaped path
/// and App IDs.
pub fn build_library_entry(index: u32, escaped_path: &str, app_ids: &[u32]) -> (s: String)
    ensures
        s@ == library_entry(index as nat, escaped_path@, app_ids@),
{
    let e = chars_of(escaped_path);
    let v = library_entry_chars(index, &e, app_ids);
    string_from_chars(&v)
}

/// Whether `apply_library` can run on these arguments: the library is
/// registered already, or a new entry's index fits in a `u32`.
pub fn can_apply_library(vdf: &str, library_root: &str) -> (b: bool)
    ensures
        b == can_apply(vdf@, library_root@),
{
    let v = chars_of(vdf);
    let p = chars_of(library_root);
    let e = escape_chars(&p);
    let ls = lines_of(&v);
    if find_path_line_exec(&ls, &e).is_some() {
        return true;
    }
    let m = max_library_index(vdf);
    m < 4294967295u32
}

/// Registers `library_root` in the `libraryfolders.vdf` text `vdf` and makes
/// sure that its `apps` block lists every App ID of `app_ids`; returns the
/// new text.
pub fn apply_library(vdf: &str, library_root: &str, app_ids: &[u32]) -> (r: String)
    requires
        can_apply(vdf@, library_root@),
    ensures
        r@ == apply_library_spec(vdf@, library_root@, app_ids@),
{
    let v = chars_of(vdf);
    let p = chars_of(library_root);
    let e = escape_chars(&p);
    let ls = lines_of(&v);
    if find_path_line_exec(&ls, &e).is_some() {
        let r = ensure_apps_chars(&v, &e, app_ids);
        return string_from_chars(&r);
    }
    let index = next_library_index(vdf);
    let entry = library_entry_chars(index, &e, app_ids);
    let out = match last_index_exec(&v, '}') {
        Some(pos) => {
            let mut out = copy_range(&v, 0, pos);
            append_chars(&mut out, &entry);
            let rest = copy_range(&v, pos, v.len());
            append_chars(&mut out, &rest);
            assert(out@ =~= v@.take(pos as int) + entry@ + v@.skip(pos as int));
            out
        },
        None => {
            let mut out = trim_end_chars(&v);
            out.push('\n');
            append_chars(&mut out, &entry);
            out
        },
    };
    string_from_chars(&out)
}

// ── facts used by the laws ──────────────────────────────────────────────────

proof fn lemma_escape_no_newline(p: Seq<char>)
    requires
        has_no_newline(p),
    ensures
        has_no_newline(escape_path_spec(p)),
    decreases p.len(),
{
    if p.len() > 0 {
        let q = p.drop_last();
        assert(has_no_newline(q)) by {
            assert forall|k: int| 0 <= k < q.len() implies #[trigger] q[k] != '\n' by {
                assert(q[k] == p[k]);
            }
        }
        lemma_escape_no_newline(q);
        assert(p[p.len() - 1] != '\n');
    }
}

proof fn lemma_decimal_digits(n: nat)
    ensures
        forall|k: int| 0 <= k < decimal(n).len() ==> is_digit(#[trigger] decimal(n)[k]),
        decimal(n).len() > 0,
    decreases n,
{
    if n >= 10 {
        lemma_decimal_digits(n / 10);
        assert forall|k: int| 0 <= k < decimal(n).len() implies is_digit(
            #[trigger] decimal(n)[k],
        ) by {
            if k < decimal(n / 10).len() {
                assert(decimal(n)[k] == decimal(n / 10)[k]);
            }
        }
    }
}

proof fn lemma_find_path_line_some(ls: Seq<Seq<char>>, e: Seq<char>, from: int, k: int)
    requires
        0 <= from <= k < ls.len(),
        is_path_line(ls[k], e),
    ensures
        find_path_line(ls, e, from) is Some,
    decreases k - from,
{
    if from < k && !is_path_line(ls[from], e) {
        lemma_find_path_line_some(ls, e, from + 1, k);
    }
}

proof fn lemma_find_path_line_found(ls: Seq<Seq<char>>, e: Seq<char>, from: int)
    ensures
        find_path_line(ls, e, from) matches Some(p) ==> from <= p < ls.len() && is_path_line(
            ls[p],
            e,
        ),
    decreases ls.len() - from,
{
    if 0 <= from < ls.len() && !is_path_line(ls[from], e) {
        lemma_find_path_line_found(ls, e, from + 1);
    }
}

proof fn lemma_find_trimmed_found(ls: Seq<Seq<char>>, from: int, t: Seq<char>)
    ensures
        find_trimmed(ls, from, t) matches Some(i) ==> from <= i < ls.len() && trim(ls[i]) == t,
    decreases ls.len() - from,
{
    if 0 <= from < ls.len() && trim(ls[from]) != t {
        lemma_find_trimmed_found(ls, from + 1, t);
    }
}

/// Removing a trailing carriage return keeps every occurrence of a pattern
/// that does not end with one; and nothing new occurs.
proof fn lemma_strip_cr_contains(l: Seq<char>, n: Seq<char>)
    requires
        n.len() > 0,
        n.last() != '\r',
    ensures
        contains(strip_cr(l), n) <==> contains(l, n),
{
    if l.len() > 0 && l.last() == '\r' {
        let d = l.drop_last();
        if contains(l, n) {
            let i = choose|i: int| occurs_at(l, n, i);
            if i + n.len() == l.len() {
                assert(l.subrange(i, i + n.len())[n.len() - 1] == l.last());
            }
            assert(d.subrange(i, i + n.len()) =~= l.subrange(i, i + n.len()));
            assert(occurs_at(d, n, i));
        }
        if contains(d, n) {
            assert(l.subrange(0, d.len() as int) =~= d);
            lemma_contains_in_piece(l, 0, d, n);
        }
    }
}

/// A pattern holding a character that a text lacks does not occur in it.
proof fn lemma_not_contains(h: Seq<char>, n: Seq<char>, k: int)
    requires
        0 <= k < n.len(),
        forall|m: int| 0 <= m < h.len() ==> #[trigger] h[m] != n[k],
    ensures
        !contains(h, n),
{
    if contains(h, n) {
        let i = choose|i: int| occurs_at(h, n, i);
        assert(h.subrange(i, i + n.len())[k] == h[i + k]);
    }
}

/// The path line of a new entry.
pub open spec fn entry_path_line(escaped: Seq<char>) -> Seq<char> {
    "\t\t\"path\"\t\t\""@ + escaped + seq!['"']
}

proof fn lemma_entry_path_line(escaped: Seq<char>)
    requires
        has_no_newline(escaped),
    ensures
        has_no_newline(entry_path_line(escaped)),
        strip_cr(entry_path_line(escaped)) == entry_path_line(escaped),
        is_path_line(entry_path_line(escaped), escaped),
{
    reveal_strlit("\t\t\"path\"\t\t\"");
    reveal_strlit("\"path\"");
    let pre = "\t\t\"path\"\t\t\""@;
    let l = entry_path_line(escaped);
    assert forall|k: int| 0 <= k < l.len() implies #[trigger] l[k] != '\n' by {
        if pre.len() <= k < pre.len() + escaped.len() {
            assert(l[k] == escaped[k - pre.len()]);
        }
    }
    assert(l.subrange(2, 8) =~= "\"path\""@);
    assert(occurs_at(l, "\"path\""@, 2));
    assert(l.subrange(10, l.len() as int) =~= quoted(escaped));
    assert(occurs_at(l, quoted(escaped), 10));
}

/// A new entry: what comes before its path line, the path line, and the
/// rest, separated by newlines.
proof fn lemma_entry_shape(index: nat, escaped: Seq<char>, ids: Seq<u32>)
    ensures
        library_entry(index, escaped, ids) == ("\t\""@ + decimal(index) + "\"\n\t{"@) + seq![
            '\n',
        ] + entry_path_line(escaped) + seq!['\n'] + (entry_middle().skip(2) + apps_body(ids)
            + entry_tail()),
{
    reveal_strlit("\"\n\t{\n\t\t\"path\"\t\t\"");
    reveal_strlit("\"\n\t{");
    reveal_strlit("\t\t\"path\"\t\t\"");
    reveal_strlit(
        "\"\n\t\t\"label\"\t\t\"\"\n\t\t\"contentid\"\t\t\"0\"\n\t\t\"totalsize\"\t\t\"0\"\n\t\t\"update_clean_bytes_tally\"\t\t\"0\"\n\t\t\"time_last_update_corruption\"\t\t\"0\"\n\t\t\"apps\"\n\t\t{\n",
    );
    let h = "\"\n\t{\n\t\t\"path\"\t\t\""@;
    assert(h =~= "\"\n\t{"@ + seq!['\n'] + "\t\t\"path\"\t\t\""@);
    let m = entry_middle();
    assert(m =~= seq!['"', '\n'] + m.skip(2));
    assert(library_entry(index, escaped, ids) =~= ("\t\""@ + decimal(index) + "\"\n\t{"@)
        + seq!['\n'] + entry_path_line(escaped) + seq!['\n'] + (entry_middle().skip(2)
        + apps_body(ids) + entry_tail()));
}

proof fn lemma_contains_self(n: Seq<char>)
    ensures
        contains(n, n),
{
    assert(n.subrange(0, n.len() as int) =~= n);
    assert(occurs_at(n, n, 0));
}

/// The App ID line: three tabs, the quoted decimal ID, two tabs and `"0"`.
proof fn lemma_app_line_parts(id: u32)
    ensures
        app_line(id) == seq!['\t', '\t', '\t'] + quoted(decimal(id as nat)) + seq![
            '\t',
            '\t',
            '"',
            '0',
            '"',
        ],
{
    reveal_strlit("\t\t\t\"");
    reveal_strlit("\"\t\t\"0\"");
    assert(app_line(id) =~= seq!['\t', '\t', '\t'] + quoted(decimal(id as nat)) + seq![
        '\t',
        '\t',
        '"',
        '0',
        '"',
    ]);
}

/// No newline and no `p` in `s`.
spec fn plain_chars(s: Seq<char>) -> bool {
    forall|k: int| 0 <= k < s.len() ==> #[trigger] s[k] != '\n' && s[k] != 'p'
}

proof fn lemma_plain_chars_concat(a: Seq<char>, b: Seq<char>)
    requires
        plain_chars(a),
        plain_chars(b),
    ensures
        plain_chars(a + b),
{
    assert forall|k: int| 0 <= k < (a + b).len() implies #[trigger] (a + b)[k] != '\n' && (a
        + b)[k] != 'p' by {
        if k < a.len() {
            assert((a + b)[k] == a[k]);
        } else {
            assert((a + b)[k] == b[k - a.len()]);
        }
    }
}

proof fn lemma_quoted_decimal_plain(id: u32)
    ensures
        plain_chars(quoted(decimal(id as nat))),
{
    lemma_decimal_digits(id as nat);
    let d = decimal(id as nat);
    assert(plain_chars(d)) by {
        assert forall|k: int| 0 <= k < d.len() implies #[trigger] d[k] != '\n' && d[k] != 'p' by {
            assert(is_digit(d[k]));
        }
    }
    assert(plain_chars(seq!['"']));
    lemma_plain_chars_concat(seq!['"'], d);
    lemma_plain_chars_concat(seq!['"'] + d, seq!['"']);
}

/// The App ID line holds the quoted decimal ID, no newline and no `p`.
proof fn lemma_app_line(id: u32)
    ensures
        contains(app_line(id), quoted(decimal(id as nat))),
        has_no_newline(app_line(id)),
        strip_cr(app_line(id)) == app_line(id),
        forall|k: int| 0 <= k < app_line(id).len() ==> #[trigger] app_line(id)[k] != 'p',
{
    lemma_app_line_parts(id);
    let d = decimal(id as nat);
    let l = app_line(id);
    let pre = seq!['\t', '\t', '\t'];
    let post = seq!['\t', '\t', '"', '0', '"'];
    lemma_contains_self(quoted(d));
    lemma_contains_concat(pre, quoted(d), post, quoted(d));
    assert(plain_chars(pre));
    assert(plain_chars(post));
    lemma_quoted_decimal_plain(id);
    lemma_plain_chars_concat(pre, quoted(d));
    lemma_plain_chars_concat(pre + quoted(d), post);
    assert(l.last() == post.last());
}

proof fn lemma_quoted_decimal(id: u32)
    ensures
        has_no_newline(quoted(decimal(id as nat))),
        quoted(decimal(id as nat)).len() > 0,
{
    lemma_decimal_digits(id as nat);
    let d = decimal(id as nat);
    assert forall|k: int| 0 <= k < quoted(d).len() implies #[trigger] quoted(d)[k] != '\n' by {
        if 1 <= k < 1 + d.len() {
            assert(quoted(d)[k] == d[k - 1]);
            assert(is_digit(d[k - 1]));
        }
    }
}

proof fn lemma_apps_body_contains(ids: Seq<u32>, k: int)
    requires
        0 <= k < ids.len(),
    ensures
        contains(apps_body(ids), quoted(decimal(ids[k] as nat))),
    decreases ids.len(),
{
    let n = quoted(decimal(ids[k] as nat));
    if k < ids.len() - 1 {
        lemma_apps_body_contains(ids.drop_last(), k);
        assert(ids.drop_last()[k] == ids[k]);
        lemma_contains_concat(
            Seq::empty(),
            apps_body(ids.drop_last()),
            app_line(ids.last()) + seq!['\n'],
            n,
        );
        assert(Seq::<char>::empty() + apps_body(ids.drop_last()) + (app_line(ids.last()) + seq![
            '\n',
        ]) =~= apps_body(ids));
    } else {
        lemma_app_line(ids.last());
        lemma_contains_concat(apps_body(ids.drop_last()), app_line(ids.last()), seq!['\n'], n);
    }
}

/// Each ID is either named in the block already or has a line to add.
proof fn lemma_missing_covers(block: Seq<char>, ids: Seq<u32>, k: int)
    requires
        0 <= k < ids.len(),
    ensures
        contains(block, quoted(decimal(ids[k] as nat))) || exists|j: int|
            0 <= j < missing_app_lines(block, ids).len() && #[trigger] missing_app_lines(
                block,
                ids,
            )[j] == app_line(ids[k]),
    decreases ids.len(),
{
    let rest = missing_app_lines(block, ids.drop_last());
    if k < ids.len() - 1 {
        lemma_missing_covers(block, ids.drop_last(), k);
        assert(ids.drop_last()[k] == ids[k]);
        if !contains(block, quoted(decimal(ids[k] as nat))) {
            let j = choose|j: int|
                0 <= j < rest.len() && #[trigger] rest[j] == app_line(ids.drop_last()[k]);
            assert(missing_app_lines(block, ids)[j] == rest[j]);
        }
    } else {
        if !contains(block, quoted(decimal(ids[k] as nat))) {
            assert(missing_app_lines(block, ids)[rest.len() as int] == app_line(ids[k]));
        }
    }
}

proof fn lemma_missing_lines_shape(block: Seq<char>, ids: Seq<u32>)
    ensures
        forall|j: int|
            0 <= j < missing_app_lines(block, ids).len() ==> exists|k: int|
                0 <= k < ids.len() && #[trigger] missing_app_lines(block, ids)[j] == app_line(
                    #[trigger] ids[k],
                ),
    decreases ids.len(),
{
    if ids.len() > 0 {
        lemma_missing_lines_shape(block, ids.drop_last());
        let rest = missing_app_lines(block, ids.drop_last());
        assert forall|j: int| 0 <= j < missing_app_lines(block, ids).len() implies exists|k: int|
            0 <= k < ids.len() && #[trigger] missing_app_lines(block, ids)[j] == app_line(
                #[trigger] ids[k],
            ) by {
            if j < rest.len() {
                let k = choose|k: int|
                    0 <= k < ids.drop_last().len() && #[trigger] rest[j] == app_line(
                        #[trigger] ids.drop_last()[k],
                    );
                assert(ids[k] == ids.drop_last()[k]);
            } else {
                assert(missing_app_lines(block, ids)[j] == app_line(ids[ids.len() - 1]));
            }
        }
    }
}

/// Facts about the edited lines of a registered library whose `apps` block
/// gets new lines.
proof fn lemma_edited_lines(vdf: Seq<char>, escaped: Seq<char>, ids: Seq<u32>)
    requires
        apps_block(lines(vdf), escaped) matches Some((a, o, c)) && missing_app_lines(
            block_text(lines(vdf), o, c),
            ids,
        ).len() > 0,
    ensures
        ({
            let ls = lines(vdf);
            let (a, o, c) = apps_block(ls, escaped)->0;
            let ins = missing_app_lines(block_text(ls, o, c), ids);
            let m = ls.take(c) + ins + ls.skip(c);
            let p = find_path_line(ls, escaped, 0)->0;
            &&& 0 <= p <= a < o < c < ls.len()
            &&& is_path_line(ls[p], escaped)
            &&& forall|i: int| 0 <= i < m.len() ==> has_no_newline(#[trigger] m[i])
            &&& m.len() == ls.len() + ins.len()
            &&& forall|i: int| 0 <= i < c ==> #[trigger] m[i] == ls[i]
            &&& forall|i: int| 0 <= i < ins.len() ==> #[trigger] m[c + i] == ins[i]
            &&& forall|i: int| c <= i < ls.len() ==> #[trigger] m[i + ins.len()] == ls[i]
            &&& lines(join_lines(m)) == m.drop_last().map_values(|l: Seq<char>| strip_cr(l))
                + lines(m.last())
        }),
{
    let ls = lines(vdf);
    let (a, o, c) = apps_block(ls, escaped)->0;
    let ins = missing_app_lines(block_text(ls, o, c), ids);
    let m = ls.take(c) + ins + ls.skip(c);
    let p = find_path_line(ls, escaped, 0)->0;
    lemma_find_path_line_found(ls, escaped, 0);
    lemma_find_trimmed_found(ls, p, "\"apps\""@);
    lemma_find_trimmed_found(ls, a + 1, "{"@);
    lemma_find_trimmed_found(ls, o + 1, "}"@);
    lemma_lines_no_newline_each(vdf);
    lemma_missing_lines_shape(block_text(ls, o, c), ids);
    assert forall|i: int| 0 <= i < m.len() implies has_no_newline(#[trigger] m[i]) by {
        if i < c {
            assert(m[i] == ls[i]);
        } else if i < c + ins.len() {
            assert(m[i] == ins[i - c]);
            let k = choose|k: int|
                0 <= k < ids.len() && #[trigger] ins[i - c] == app_line(#[trigger] ids[k]);
            lemma_app_line(ids[k]);
        } else {
            assert(m[i] == ls[i - ins.len()]);
        }
    }
    lemma_lines_join(m);
}

/// How many lines hold the `"path"` key.
pub open spec fn path_key_count(ls: Seq<Seq<char>>) -> nat
    decreases ls.len(),
{
    if ls.len() == 0 {
        0
    } else {
        path_key_count(ls.drop_last()) + if contains(ls.last(), "\"path\""@) {
            1nat
        } else {
            0nat
        }
    }
}

proof fn lemma_path_key_count_append(x: Seq<Seq<char>>, y: Seq<Seq<char>>)
    ensures
        path_key_count(x + y) == path_key_count(x) + path_key_count(y),
    decreases y.len(),
{
    if y.len() == 0 {
        assert(x + y =~= x);
    } else {
        lemma_path_key_count_append(x, y.drop_last());
        assert((x + y).drop_last() =~= x + y.drop_last());
    }
}

proof fn lemma_path_key_count_strip(x: Seq<Seq<char>>)
    ensures
        path_key_count(x.map_values(|l: Seq<char>| strip_cr(l))) == path_key_count(x),
    decreases x.len(),
{
    reveal_strlit("\"path\"");
    if x.len() > 0 {
        lemma_path_key_count_strip(x.drop_last());
        assert(x.map_values(|l: Seq<char>| strip_cr(l)).drop_last() =~= x.drop_last().map_values(
            |l: Seq<char>| strip_cr(l),
        ));
        lemma_strip_cr_contains(x.last(), "\"path\""@);
    }
}

proof fn lemma_path_key_count_none(x: Seq<Seq<char>>)
    requires
        forall|i: int| 0 <= i < x.len() ==> !contains(#[trigger] x[i], "\"path\""@),
    ensures
        path_key_count(x) == 0,
    decreases x.len(),
{
    if x.len() > 0 {
        let y = x.drop_last();
        assert forall|i: int| 0 <= i < y.len() implies !contains(#[trigger] y[i], "\"path\""@) by {
            assert(y[i] == x[i]);
        }
        lemma_path_key_count_none(y);
        assert(x.last() == x[x.len() - 1]);
    }
}

// ── laws ────────────────────────────────────────────────────────────────────

/// After `apply_library`, the library is registered: a line of the result
/// holds the `"path"` key and the quoted escaped library path. (A root with
/// a newline can never be registered: no line holds a newline.)
pub proof fn lemma_apply_registers(vdf: Seq<char>, library_root: Seq<char>, ids: Seq<u32>)
    requires
        can_apply(vdf, library_root),
        has_no_newline(library_root),
    ensures
        is_registered(apply_library_spec(vdf, library_root, ids), escape_path_spec(library_root)),
{
    let e = escape_path_spec(library_root);
    lemma_escape_no_newline(library_root);
    let r = apply_library_spec(vdf, library_root, ids);
    if is_registered(vdf, e) {
        let ls = lines(vdf);
        if let Some((a, o, c)) = apps_block(ls, e) {
            let ins = missing_app_lines(block_text(ls, o, c), ids);
            if ins.len() > 0 {
                lemma_edited_lines(vdf, e, ids);
                let m = ls.take(c) + ins + ls.skip(c);
                let p = find_path_line(ls, e, 0)->0;
                let rl = lines(join_lines(m));
                assert(rl[p] == strip_cr(m[p]));
                assert(m[p] == ls[p]);
                reveal_strlit("\"path\"");
                lemma_strip_cr_contains(ls[p], "\"path\""@);
                lemma_strip_cr_contains(ls[p], quoted(e));
                lemma_find_path_line_some(rl, e, 0, p);
            }
        }
    } else {
        let entry = library_entry(max_index(lines(vdf)) + 1, e, ids);
        let idx = max_index(lines(vdf)) + 1;
        lemma_entry_shape(idx, e, ids);
        lemma_entry_path_line(e);
        let x_entry = "\t\""@ + decimal(idx) + "\"\n\t{"@;
        let rest = entry_middle().skip(2) + apps_body(ids) + entry_tail();
        let l = entry_path_line(e);
        let (x, b) = match last_index_of(vdf, '}') {
            Some(pos) => (vdf.take(pos) + x_entry, rest + vdf.skip(pos)),
            None => (trim_end(vdf) + seq!['\n'] + x_entry, rest),
        };
        assert(r =~= x + seq!['\n'] + l + seq!['\n'] + b);
        lemma_line_between(x, l, b);
        let rl = lines(r);
        let k = lines(x + seq!['\n']).len() as int;
        assert(rl[k] == l);
        lemma_find_path_line_some(rl, e, 0, k);
    }
}

/// After `apply_library`, the quoted number of every requested App ID
/// occurs in the text. This holds unless the library is registered with no
/// `apps` block after its path line, which is then left as it was.
pub proof fn lemma_apply_lists_apps(vdf: Seq<char>, library_root: Seq<char>, ids: Seq<u32>)
    requires
        can_apply(vdf, library_root),
        !is_registered(vdf, escape_path_spec(library_root)) || apps_block(
            lines(vdf),
            escape_path_spec(library_root),
        ) is Some,
    ensures
        forall|k: int|
            0 <= k < ids.len() ==> contains(
                apply_library_spec(vdf, library_root, ids),
                quoted(decimal(#[trigger] ids[k] as nat)),
            ),
{
    let e = escape_path_spec(library_root);
    let r = apply_library_spec(vdf, library_root, ids);
    assert forall|k: int| 0 <= k < ids.len() implies contains(
        r,
        quoted(decimal(#[trigger] ids[k] as nat)),
    ) by {
        let q = quoted(decimal(ids[k] as nat));
        lemma_quoted_decimal(ids[k]);
        if is_registered(vdf, e) {
            let ls = lines(vdf);
            let (a, o, c) = apps_block(ls, e)->0;
            let block_lines = ls.subrange(o, c + 1);
            let ins = missing_app_lines(block_text(ls, o, c), ids);
            lemma_missing_covers(block_text(ls, o, c), ids, k);
            lemma_find_path_line_found(ls, e, 0);
            lemma_find_trimmed_found(ls, find_path_line(ls, e, 0)->0, "\"apps\""@);
            lemma_find_trimmed_found(ls, a + 1, "{"@);
            lemma_find_trimmed_found(ls, o + 1, "}"@);
            if ins.len() == 0 {
                lemma_contains_join(block_lines, q);
                let j = choose|j: int| 0 <= j < block_lines.len() && contains(
                    #[trigger] block_lines[j],
                    q,
                );
                assert(block_lines[j] == ls[o + j]);
                lemma_contains_from_line(vdf, o + j, q);
            } else {
                lemma_edited_lines(vdf, e, ids);
                let m = ls.take(c) + ins + ls.skip(c);
                if contains(block_text(ls, o, c), q) {
                    lemma_contains_join(block_lines, q);
                    let j = choose|j: int| 0 <= j < block_lines.len() && contains(
                        #[trigger] block_lines[j],
                        q,
                    );
                    assert(block_lines[j] == ls[o + j]);
                    if o + j < c {
                        assert(m[o + j] == ls[o + j]);
                        lemma_join_contains_line(m, o + j, q);
                    } else {
                        assert(m[c + ins.len()] == ls[c]);
                        lemma_join_contains_line(m, c + ins.len(), q);
                    }
                } else {
                    let j = choose|j: int|
                        0 <= j < ins.len() && #[trigger] ins[j] == app_line(ids[k]);
                    assert(m[c + j] == ins[j]);
                    lemma_app_line(ids[k]);
                    lemma_join_contains_line(m, c + j, q);
                }
            }
        } else {
            let idx = max_index(lines(vdf)) + 1;
            let entry = library_entry(idx, e, ids);
            lemma_apps_body_contains(ids, k);
            lemma_contains_concat(
                entry_head(idx) + e + entry_middle(),
                apps_body(ids),
                entry_tail(),
                q,
            );
            match last_index_of(vdf, '}') {
                Some(pos) => {
                    lemma_contains_concat(vdf.take(pos), entry, vdf.skip(pos), q);
                },
                None => {
                    lemma_contains_concat(trim_end(vdf) + seq!['\n'], entry, Seq::empty(), q);
                    assert(trim_end(vdf) + seq!['\n'] + entry + Seq::<char>::empty() =~= r);
                },
            }
        }
    }
}

/// Applying to an already registered library adds no `"path"` line: the
/// result has as many lines holding the key as the text it was applied to.
pub proof fn lemma_registered_adds_no_library(
    vdf: Seq<char>,
    library_root: Seq<char>,
    ids: Seq<u32>,
)
    requires
        is_registered(vdf, escape_path_spec(library_root)),
    ensures
        path_key_count(lines(apply_library_spec(vdf, library_root, ids))) == path_key_count(
            lines(vdf),
        ),
{
    let e = escape_path_spec(library_root);
    let ls = lines(vdf);
    if let Some((a, o, c)) = apps_block(ls, e) {
        let ins = missing_app_lines(block_text(ls, o, c), ids);
        if ins.len() > 0 {
            reveal_strlit("\"path\"");
            lemma_edited_lines(vdf, e, ids);
            let m = ls.take(c) + ins + ls.skip(c);
            lemma_path_key_count_append(
                m.drop_last().map_values(|l: Seq<char>| strip_cr(l)),
                lines(m.last()),
            );
            lemma_path_key_count_strip(m.drop_last());
            assert(m.last() == m[m.len() - 1]);
            lemma_lines_no_newline(m.last());
            if m.last().len() == 0 {
                assert(!contains(m.last(), "\"path\""@));
                assert(path_key_count(lines(m.last())) == 0);
            } else {
                assert(lines(m.last()) =~= seq![m.last()]);
                assert(seq![m.last()].drop_last() =~= Seq::<Seq<char>>::empty());
            }
            assert(m =~= m.drop_last().push(m.last()));
            assert(path_key_count(m) == path_key_count(m.drop_last()) + path_key_count(
                lines(m.last()),
            )) by {
                if m.last().len() > 0 {
                    let one = seq![m.last()];
                    assert(one.drop_last() =~= Seq::<Seq<char>>::empty());
                    assert(one.last() == m.last());
                    assert(path_key_count(one.drop_last()) == 0);
                    assert(path_key_count(seq![m.last()]) == if contains(
                        m.last(),
                        "\"path\""@,
                    ) {
                        1nat
                    } else {
                        0nat
                    });
                }
            }
            lemma_missing_lines_shape(block_text(ls, o, c), ids);
            assert forall|i: int| 0 <= i < ins.len() implies !contains(
                #[trigger] ins[i],
                "\"path\""@,
            ) by {
                let k = choose|k: int|
                    0 <= k < ids.len() && #[trigger] ins[i] == app_line(#[trigger] ids[k]);
                lemma_app_line(ids[k]);
                assert("\"path\""@[1] == 'p');
                lemma_not_contains(ins[i], "\"path\""@, 1);
            }
            lemma_path_key_count_none(ins);
            lemma_path_key_count_append(ls.take(c), ins);
            lemma_path_key_count_append(ls.take(c) + ins, ls.skip(c));
            lemma_path_key_count_append(ls.take(c), ls.skip(c));
            assert(ls.take(c) + ls.skip(c) =~= ls);
        }
    }
}

// ── applying twice ──────────────────────────────────────────────────────────

pub open spec fn label_line() -> Seq<char> {
    "\t\t\"label\"\t\t\"\""@
}

pub open spec fn contentid_line() -> Seq<char> {
    "\t\t\"contentid\"\t\t\"0\""@
}

pub open spec fn totalsize_line() -> Seq<char> {
    "\t\t\"totalsize\"\t\t\"0\""@
}

pub open spec fn tally_line() -> Seq<char> {
    "\t\t\"update_clean_bytes_tally\"\t\t\"0\""@
}

pub open spec fn corruption_line() -> Seq<char> {
    "\t\t\"time_last_update_corruption\"\t\t\"0\""@
}

pub open spec fn apps_key_line() -> Seq<char> {
    "\t\t\"apps\""@
}

pub open spec fn block_open_line() -> Seq<char> {
    "\t\t{"@
}

pub open spec fn block_close_line() -> Seq<char> {
    "\t\t}"@
}

/// The lines of a new entry after its path line, up to the `apps` block.
pub open spec fn entry_fixed_lines() -> Seq<Seq<char>> {
    seq![
        label_line(),
        contentid_line(),
        totalsize_line(),
        tally_line(),
        corruption_line(),
        apps_key_line(),
        block_open_line(),
    ]
}

proof fn lemma_fixed_lines_text()
    ensures
        entry_middle().skip(2) == label_line() + seq!['\n'] + contentid_line() + seq!['\n']
            + totalsize_line() + seq!['\n'] + tally_line() + seq!['\n'] + corruption_line()
            + seq!['\n'] + apps_key_line() + seq!['\n'] + block_open_line() + seq!['\n'],
        entry_tail() == block_close_line() + seq!['\n'] + "\t}\n"@,
        forall|i: int|
            0 <= i < entry_fixed_lines().len() ==> has_no_newline(
                #[trigger] entry_fixed_lines()[i],
            ) && strip_cr(entry_fixed_lines()[i]) == entry_fixed_lines()[i],
        has_no_newline(block_close_line()),
        strip_cr(block_close_line()) == block_close_line(),
{
    reveal_strlit(
        "\"\n\t\t\"label\"\t\t\"\"\n\t\t\"contentid\"\t\t\"0\"\n\t\t\"totalsize\"\t\t\"0\"\n\t\t\"update_clean_bytes_tally\"\t\t\"0\"\n\t\t\"time_last_update_corruption\"\t\t\"0\"\n\t\t\"apps\"\n\t\t{\n",
    );
    reveal_strlit("\t\t\"label\"\t\t\"\"");
    reveal_strlit("\t\t\"contentid\"\t\t\"0\"");
    reveal_strlit("\t\t\"totalsize\"\t\t\"0\"");
    reveal_strlit("\t\t\"update_clean_bytes_tally\"\t\t\"0\"");
    reveal_strlit("\t\t\"time_last_update_corruption\"\t\t\"0\"");
    reveal_strlit("\t\t\"apps\"");
    reveal_strlit("\t\t{");
    reveal_strlit("\t\t}");
    reveal_strlit("\t\t}\n\t}\n");
    reveal_strlit("\t}\n");
    assert(entry_middle().skip(2) =~= label_line() + seq!['\n'] + contentid_line() + seq!['\n']
        + totalsize_line() + seq!['\n'] + tally_line() + seq!['\n'] + corruption_line() + seq![
        '\n',
    ] + apps_key_line() + seq!['\n'] + block_open_line() + seq!['\n']);
    assert(entry_tail() =~= block_close_line() + seq!['\n'] + "\t}\n"@);
    assert forall|i: int| 0 <= i < entry_fixed_lines().len() implies has_no_newline(
        #[trigger] entry_fixed_lines()[i],
    ) && strip_cr(entry_fixed_lines()[i]) == entry_fixed_lines()[i] by {
        let l = entry_fixed_lines()[i];
        assert(l.last() != '\r');
    }
}

proof fn lemma_fixed_lines_joined()
    ensures
        entry_middle().skip(2) == join_lines(entry_fixed_lines()) + seq!['\n'],
{
    lemma_fixed_lines_text();
    reveal_with_fuel(join_lines, 8);
    let fl = entry_fixed_lines();
    assert(fl.drop_last().drop_last().drop_last().drop_last().drop_last().drop_last() =~= seq![
        fl[0],
    ]);
    assert(join_lines(entry_fixed_lines()) =~= label_line() + seq!['\n'] + contentid_line()
        + seq!['\n'] + totalsize_line() + seq!['\n'] + tally_line() + seq!['\n']
        + corruption_line() + seq!['\n'] + apps_key_line() + seq!['\n'] + block_open_line());
}

/// The lines that follow the path line of a new entry.
proof fn lemma_entry_rest_lines(ids: Seq<u32>, y: Seq<char>)
    ensures
        lines(entry_middle().skip(2) + apps_body(ids) + entry_tail() + y) == entry_fixed_lines()
            + ids.map_values(|id: u32| app_line(id)) + seq![block_close_line()] + lines(
            "\t}\n"@ + y,
        ),
{
    lemma_fixed_lines_text();
    lemma_fixed_lines_joined();
    let fl = entry_fixed_lines();
    let after = apps_body(ids) + entry_tail() + y;
    assert(entry_middle().skip(2) + apps_body(ids) + entry_tail() + y =~= (join_lines(fl)
        + seq!['\n']) + after);
    crate::text::lemma_lines_join_ended(fl);
    assert(fl.map_values(|l: Seq<char>| strip_cr(l)) =~= fl);
    lemma_lines_append(join_lines(fl) + seq!['\n'], after);
    lemma_apps_body_lines(ids, entry_tail() + y);
    assert(after =~= apps_body(ids) + (entry_tail() + y));
    assert(entry_tail() + y =~= block_close_line() + seq!['\n'] + ("\t}\n"@ + y));
    lemma_lines_prefix_line(block_close_line(), "\t}\n"@ + y);
    assert(lines(entry_middle().skip(2) + apps_body(ids) + entry_tail() + y) =~= fl
        + ids.map_values(|id: u32| app_line(id)) + seq![block_close_line()] + lines(
        "\t}\n"@ + y,
    ));
}

proof fn lemma_apps_body_lines(ids: Seq<u32>, y: Seq<char>)
    ensures
        lines(apps_body(ids) + y) == ids.map_values(|id: u32| app_line(id)) + lines(y),
    decreases ids.len(),
{
    if ids.len() == 0 {
        assert(apps_body(ids) + y =~= y);
        assert(ids.map_values(|id: u32| app_line(id)) + lines(y) =~= lines(y));
    } else {
        let last = ids.last();
        let y2 = app_line(last) + seq!['\n'] + y;
        lemma_apps_body_lines(ids.drop_last(), y2);
        assert(apps_body(ids) + y =~= apps_body(ids.drop_last()) + y2);
        lemma_app_line(last);
        lemma_lines_prefix_line(app_line(last), y);
        assert(ids.map_values(|id: u32| app_line(id)) =~= ids.drop_last().map_values(
            |id: u32| app_line(id),
        ).push(app_line(last)));
        assert(lines(apps_body(ids) + y) =~= ids.map_values(|id: u32| app_line(id)) + lines(y));
    }
}

proof fn lemma_find_path_line_first(ls: Seq<Seq<char>>, e: Seq<char>, from: int)
    requires
        from >= 0,
    ensures
        find_path_line(ls, e, from) matches Some(p) ==> forall|i: int|
            from <= i < p ==> !is_path_line(#[trigger] ls[i], e),
        find_path_line(ls, e, from) is None ==> forall|i: int|
            from <= i < ls.len() && 0 <= i ==> !is_path_line(#[trigger] ls[i], e),
    decreases ls.len() - from,
{
    if 0 <= from < ls.len() && !is_path_line(ls[from], e) {
        lemma_find_path_line_first(ls, e, from + 1);
    }
}

proof fn lemma_last_index_of_range(s: Seq<char>, c: char)
    ensures
        last_index_of(s, c) matches Some(i) ==> 0 <= i < s.len() && s[i] == c,
    decreases s.len(),
{
    if s.len() > 0 && s.last() != c {
        lemma_last_index_of_range(s.drop_last(), c);
    }
}

proof fn lemma_find_trimmed_at(ls: Seq<Seq<char>>, from: int, t: Seq<char>, i: int)
    requires
        0 <= from <= i < ls.len(),
        trim(ls[i]) == t,
        forall|k: int| from <= k < i ==> trim(#[trigger] ls[k]) != t,
    ensures
        find_trimmed(ls, from, t) == Some(i),
    decreases i - from,
{
    if from < i {
        lemma_find_trimmed_at(ls, from + 1, t, i);
    }
}

proof fn lemma_find_trimmed_first(ls: Seq<Seq<char>>, from: int, t: Seq<char>)
    ensures
        find_trimmed(ls, from, t) matches Some(p) ==> forall|k: int|
            from <= k < p ==> trim(#[trigger] ls[k]) != t,
    decreases ls.len() - from,
{
    if 0 <= from < ls.len() && trim(ls[from]) != t {
        lemma_find_trimmed_first(ls, from + 1, t);
    }
}

proof fn lemma_missing_empty(block: Seq<char>, ids: Seq<u32>)
    requires
        forall|k: int| 0 <= k < ids.len() ==> contains(block, quoted(decimal(#[trigger] ids[k] as nat))),
    ensures
        missing_app_lines(block, ids).len() == 0,
    decreases ids.len(),
{
    if ids.len() > 0 {
        let d = ids.drop_last();
        assert forall|k: int| 0 <= k < d.len() implies contains(
            block,
            quoted(decimal(#[trigger] d[k] as nat)),
        ) by {
            assert(d[k] == ids[k]);
        }
        lemma_missing_empty(block, d);
        assert(ids.last() == ids[ids.len() - 1]);
    }
}

/// A path line does not trim to `"apps"`.
proof fn lemma_path_line_not_apps(l: Seq<char>, e: Seq<char>)
    requires
        is_path_line(l, e),
    ensures
        trim(l) != "\"apps\""@,
{
    reveal_strlit("\"path\"");
    reveal_strlit("\"apps\"");
    lemma_contains_trim(l, "\"path\""@);
    if trim(l) == "\"apps\""@ {
        assert forall|m: int| 0 <= m < trim(l).len() implies #[trigger] trim(l)[m]
            != "\"path\""@[4] by {}
        lemma_not_contains(trim(l), "\"path\""@, 4);
    }
}

/// What the fixed lines and the App ID lines of a new entry trim to.
proof fn lemma_entry_trims(ids: Seq<u32>)
    ensures
        forall|i: int| 0 <= i < 5 ==> trim(#[trigger] entry_fixed_lines()[i]) != "\"apps\""@,
        trim(entry_fixed_lines()[5]) == "\"apps\""@,
        trim(entry_fixed_lines()[6]) == "{"@,
        trim(block_close_line()) == "}"@,
        forall|k: int| 0 <= k < ids.len() ==> trim(app_line(#[trigger] ids[k])) != "}"@,
{
    reveal_strlit("\"apps\"");
    reveal_strlit("{");
    reveal_strlit("}");
    reveal_strlit("\t\t\"label\"\t\t\"\"");
    reveal_strlit("\t\t\"contentid\"\t\t\"0\"");
    reveal_strlit("\t\t\"totalsize\"\t\t\"0\"");
    reveal_strlit("\t\t\"update_clean_bytes_tally\"\t\t\"0\"");
    reveal_strlit("\t\t\"time_last_update_corruption\"\t\t\"0\"");
    reveal_strlit("\t\t\"apps\"");
    reveal_strlit("\t\t{");
    reveal_strlit("\t\t}");
    let fl = entry_fixed_lines();
    assert forall|i: int| 0 <= i < 7 implies trim(#[trigger] fl[i]) == fl[i].subrange(
        2,
        fl[i].len() as int,
    ) by {
        lemma_trim_of(fl[i], 2, fl[i].len() as int);
    }
    assert(fl[5].subrange(2, 8) =~= "\"apps\""@);
    assert(fl[6].subrange(2, 3) =~= "{"@);
    lemma_trim_of(block_close_line(), 2, 3);
    assert(block_close_line().subrange(2, 3) =~= "}"@);
    assert forall|k: int| 0 <= k < ids.len() implies trim(app_line(#[trigger] ids[k])) != "}"@ by {
        let id = ids[k];
        lemma_app_line_parts(id);
        let l = app_line(id);
        lemma_trim_of(l, 3, l.len() as int);
    }
}

/// In lines laid out as a new entry, preceded by lines that hold no path
/// line, then by some lines of which only the first may trim to `"apps"`:
/// the entry's `apps` block is found and names every ID.
proof fn lemma_new_entry_found(
    r: Seq<Seq<char>>,
    u: Seq<Seq<char>>,
    q: Seq<Seq<char>>,
    e: Seq<char>,
    ids: Seq<u32>,
    t: Seq<Seq<char>>,
)
    requires
        r == u + q + seq![entry_path_line(e)] + entry_fixed_lines() + ids.map_values(
            |id: u32| app_line(id),
        ) + seq![block_close_line()] + t,
        forall|i: int| 0 <= i < u.len() ==> !is_path_line(#[trigger] u[i], e),
        q.len() >= 1,
        forall|i: int| 1 <= i < q.len() ==> trim(#[trigger] q[i]) != "\"apps\""@,
        has_no_newline(e),
    ensures
        ({
            let k = (u.len() + q.len()) as int;
            &&& apps_block(r, e) == Some((k + 6, k + 7, k + 8 + ids.len()))
            &&& missing_app_lines(block_text(r, k + 7, k + 8 + ids.len()), ids).len() == 0
        }),
{
    let k = (u.len() + q.len()) as int;
    let n = ids.len() as int;
    let fl = entry_fixed_lines();
    let al = ids.map_values(|id: u32| app_line(id));
    lemma_entry_path_line(e);
    lemma_entry_trims(ids);
    assert(r[k] == entry_path_line(e));
    assert forall|i: int| 0 <= i < 7 implies r[k + 1 + i] == #[trigger] fl[i] by {}
    assert forall|i: int| 0 <= i < n implies r[k + 8 + i] == #[trigger] al[i] by {}
    assert(r[k + 8 + n] == block_close_line());
    lemma_find_path_line_some(r, e, 0, k);
    lemma_find_path_line_found(r, e, 0);
    lemma_find_path_line_first(r, e, 0);
    let p = find_path_line(r, e, 0)->0;
    assert(p <= k);
    assert(p >= u.len()) by {
        if p < u.len() {
            assert(r[p] == u[p]);
        }
    }
    lemma_path_line_not_apps(r[p], e);
    lemma_path_line_not_apps(r[k], e);
    assert forall|i: int| p <= i < k + 6 implies trim(#[trigger] r[i]) != "\"apps\""@ by {
        if i == p || i == k {
        } else if i < k {
            assert(r[i] == q[i - u.len()]);
        } else {
            assert(r[i] == fl[i - k - 1]);
        }
    }
    assert(trim(r[k + 6]) == "\"apps\""@);
    lemma_find_trimmed_at(r, p, "\"apps\""@, k + 6);
    lemma_find_trimmed_at(r, k + 7, "{"@, k + 7);
    assert forall|i: int| k + 8 <= i < k + 8 + n implies trim(#[trigger] r[i]) != "}"@ by {
        assert(r[i] == al[i - k - 8]);
        assert(al[i - k - 8] == app_line(ids[i - k - 8]));
    }
    lemma_find_trimmed_at(r, k + 8, "}"@, k + 8 + n);
    let bl = r.subrange(k + 7, k + 9 + n);
    assert forall|m: int| 0 <= m < n implies contains(
        block_text(r, k + 7, k + 8 + n),
        quoted(decimal(#[trigger] ids[m] as nat)),
    ) by {
        lemma_app_line(ids[m]);
        assert(bl[1 + m] == app_line(ids[m]));
        lemma_join_contains_line(bl, 1 + m, quoted(decimal(ids[m] as nat)));
    }
    lemma_missing_empty(block_text(r, k + 7, k + 8 + n), ids);
}

/// After new App ID lines were inserted into the `apps` block of a
/// registered library, the same block is found again and names every ID.
proof fn lemma_edited_block_found(vdf: Seq<char>, e: Seq<char>, ids: Seq<u32>)
    requires
        apps_block(lines(vdf), e) matches Some((a, o, c)) && missing_app_lines(
            block_text(lines(vdf), o, c),
            ids,
        ).len() > 0,
    ensures
        ({
            let ls = lines(vdf);
            let (a, o, c) = apps_block(ls, e)->0;
            let ins = missing_app_lines(block_text(ls, o, c), ids);
            let m = ls.take(c) + ins + ls.skip(c);
            let r = lines(join_lines(m));
            &&& apps_block(r, e) == Some((a, o, c + ins.len()))
            &&& missing_app_lines(block_text(r, o, c + ins.len()), ids).len() == 0
        }),
{
    let ls = lines(vdf);
    let (a, o, c) = apps_block(ls, e)->0;
    let ins = missing_app_lines(block_text(ls, o, c), ids);
    let m = ls.take(c) + ins + ls.skip(c);
    let r = lines(join_lines(m));
    let p = find_path_line(ls, e, 0)->0;
    let ni = ins.len() as int;
    lemma_edited_lines(vdf, e, ids);
    lemma_find_path_line_first(ls, e, 0);
    lemma_find_trimmed_found(ls, p, "\"apps\""@);
    lemma_find_trimmed_found(ls, a + 1, "{"@);
    lemma_find_trimmed_found(ls, o + 1, "}"@);
    lemma_find_trimmed_first(ls, p, "\"apps\""@);
    lemma_find_trimmed_first(ls, a + 1, "{"@);
    lemma_find_trimmed_first(ls, o + 1, "}"@);
    lemma_missing_lines_shape(block_text(ls, o, c), ids);
    reveal_strlit("\"path\"");
    // lines of the edited text, up to the closing line of the block
    let sm = m.drop_last().map_values(|l: Seq<char>| strip_cr(l));
    assert forall|i: int| 0 <= i < m.len() - 1 implies #[trigger] r[i] == strip_cr(m[i]) by {}
    assert(r.len() >= m.len() - 1);
    // the closing line, whether or not it is the last line
    let close = c + ni;
    assert(m[close] == ls[c]);
    assert(trim(r[close]) == "}"@) by {
        if close < m.len() - 1 {
            lemma_trim_strip_cr(m[close]);
        } else {
            assert(m.last() == ls[c]);
            assert(ls[c].len() > 0) by {
                if ls[c].len() == 0 {
                    reveal_strlit("}");
                    assert(trim(ls[c]) =~= Seq::<char>::empty());
                }
            }
            lemma_lines_no_newline(m.last());
            assert(r[close] == m.last());
        }
    }
    assert(close < r.len()) by {
        if close >= m.len() - 1 {
            lemma_lines_no_newline(m.last());
            assert(ls[c].len() > 0) by {
                if ls[c].len() == 0 {
                    reveal_strlit("}");
                    assert(trim(ls[c]) =~= Seq::<char>::empty());
                }
            }
        }
    }
    // the path line
    assert forall|i: int| 0 <= i < c implies #[trigger] r[i] == strip_cr(ls[i]) by {
        assert(m[i] == ls[i]);
    }
    assert forall|i: int| 0 <= i < c implies trim(#[trigger] r[i]) == trim(ls[i]) by {
        lemma_trim_strip_cr(ls[i]);
    }
    assert forall|i: int| 0 <= i < c implies is_path_line(#[trigger] r[i], e) == is_path_line(
        ls[i],
        e,
    ) by {
        lemma_strip_cr_contains(ls[i], "\"path\""@);
        lemma_strip_cr_contains(ls[i], quoted(e));
    }
    assert(forall|i: int| 0 <= i < p ==> !is_path_line(#[trigger] r[i], e));
    assert(is_path_line(r[p], e));
    lemma_find_path_line_first(r, e, 0);
    lemma_find_path_line_some(r, e, 0, p);
    lemma_find_path_line_found(r, e, 0);
    assert(find_path_line(r, e, 0) == Some(p)) by {
        let p2 = find_path_line(r, e, 0)->0;
        if p2 < p {
            assert(!is_path_line(r[p2], e));
        }
    }
    assert(forall|i: int| p <= i < a ==> trim(#[trigger] r[i]) != "\"apps\""@);
    lemma_find_trimmed_at(r, p, "\"apps\""@, a);
    assert(forall|i: int| a + 1 <= i < o ==> trim(#[trigger] r[i]) != "{"@);
    lemma_find_trimmed_at(r, a + 1, "{"@, o);
    assert forall|i: int| o + 1 <= i < close implies trim(#[trigger] r[i]) != "}"@ by {
        if i < c {
        } else {
            assert(m[i] == ins[i - c]);
            let k = choose|k: int|
                0 <= k < ids.len() && #[trigger] ins[i - c] == app_line(#[trigger] ids[k]);
            lemma_app_line(ids[k]);
            lemma_entry_trims(ids);
            assert(r[i] == app_line(ids[k]));
        }
    }
    lemma_find_trimmed_at(r, o + 1, "}"@, close);
    // every ID is named in the block
    let bl = ls.subrange(o, c + 1);
    let rb = r.subrange(o, close + 1);
    assert forall|k: int| 0 <= k < ids.len() implies contains(
        block_text(r, o, close),
        quoted(decimal(#[trigger] ids[k] as nat)),
    ) by {
        let qd = quoted(decimal(ids[k] as nat));
        lemma_quoted_decimal(ids[k]);
        lemma_missing_covers(block_text(ls, o, c), ids, k);
        if contains(block_text(ls, o, c), qd) {
            lemma_contains_join(bl, qd);
            let j = choose|j: int| 0 <= j < bl.len() && contains(#[trigger] bl[j], qd);
            assert(bl[j] == ls[o + j]);
            assert(qd.last() == '"');
            lemma_strip_cr_contains(ls[o + j], qd);
            if o + j < c {
                assert(rb[j] == r[o + j]);
                lemma_join_contains_line(rb, j, qd);
            } else {
                assert(rb[close - o] == r[close]);
                if close < m.len() - 1 {
                    assert(r[close] == strip_cr(ls[c]));
                } else {
                    lemma_lines_no_newline(m.last());
                    assert(ls[c].len() > 0) by {
                        if ls[c].len() == 0 {
                            reveal_strlit("}");
                            assert(trim(ls[c]) =~= Seq::<char>::empty());
                        }
                    }
                    assert(r[close] == ls[c]);
                }
                lemma_join_contains_line(rb, close - o, qd);
            }
        } else {
            let j = choose|j: int| 0 <= j < ins.len() && #[trigger] ins[j] == app_line(ids[k]);
            lemma_app_line(ids[k]);
            assert(m[c + j] == ins[j]);
            assert(r[c + j] == app_line(ids[k]));
            assert(rb[c + j - o] == r[c + j]);
            lemma_join_contains_line(rb, c + j - o, qd);
        }
    }
    lemma_missing_empty(block_text(r, o, close), ids);
}

/// The text just before a new entry's path line, without its final newline.
pub open spec fn entry_lead(index: nat) -> Seq<char> {
    "\t\""@ + decimal(index) + seq!['"']
}

proof fn lemma_entry_lead(index: nat)
    ensures
        has_no_newline(entry_lead(index)),
        strip_cr(entry_lead(index)) == entry_lead(index),
        trim(entry_lead(index)) != "\"apps\""@,
        "\t\""@ + decimal(index) + "\"\n\t{"@ == entry_lead(index) + seq!['\n'] + seq!['\t', '{'],
{
    reveal_strlit("\t\"");
    reveal_strlit("\"\n\t{");
    reveal_strlit("\"apps\"");
    lemma_decimal_digits(index);
    let d = decimal(index);
    let w = entry_lead(index);
    assert forall|k: int| 0 <= k < w.len() implies #[trigger] w[k] != '\n' by {
        if 2 <= k < 2 + d.len() {
            assert(w[k] == d[k - 2]);
            assert(is_digit(d[k - 2]));
        }
    }
    assert("\t\""@ + d + "\"\n\t{"@ =~= w + seq!['\n'] + seq!['\t', '{']);
    lemma_trim_of(w, 1, w.len() as int);
    assert(w[2] == d[0]);
    assert(is_digit(d[0]));
    assert(trim(w)[1] == w[2]);
}

proof fn lemma_tab_open()
    ensures
        has_no_newline(seq!['\t', '{']),
        strip_cr(seq!['\t', '{']) == seq!['\t', '{'],
        trim(seq!['\t', '{']) != "\"apps\""@,
{
    reveal_strlit("\"apps\"");
    let t = seq!['\t', '{'];
    lemma_trim_of(t, 1, 2);
    assert(trim(t).len() == 1);
}

/// A new entry inserted before the last `}`: found again, naming every ID.
#[verifier::rlimit(60)]
proof fn lemma_reapply_before_brace(vdf: Seq<char>, e: Seq<char>, ids: Seq<u32>, pos: int)
    requires
        0 <= pos <= vdf.len(),
        !is_registered(vdf, e),
        has_no_newline(e),
    ensures
        ({
            let entry = library_entry(max_index(lines(vdf)) + 1, e, ids);
            let r = lines(vdf.take(pos) + entry + vdf.skip(pos));
            apps_block(r, e) matches Some((a, o, c)) && missing_app_lines(
                block_text(r, o, c),
                ids,
            ).len() == 0
        }),
{
    let ls = lines(vdf);
    lemma_find_path_line_first(ls, e, 0);
    let idx = max_index(ls) + 1;
    let entry = library_entry(idx, e, ids);
    lemma_entry_shape(idx, e, ids);
    lemma_entry_path_line(e);
    lemma_entry_lead(idx);
    lemma_tab_open();
    let w = entry_lead(idx);
    let tab_open = seq!['\t', '{'];
    let l = entry_path_line(e);
    let y = vdf.skip(pos);
    let rest = entry_middle().skip(2) + apps_body(ids) + entry_tail();
    let whole = vdf.take(pos) + entry + y;
    assert(whole =~= (vdf.take(pos) + w + seq!['\n']) + (tab_open + seq!['\n'] + (l + seq!['\n']
        + (rest + y))));
    let (u, u2) = lemma_lines_of_prefix(vdf, pos, w);
    lemma_lines_append(
        vdf.take(pos) + w + seq!['\n'],
        tab_open + seq!['\n'] + (l + seq!['\n'] + (rest + y)),
    );
    lemma_lines_prefix_line(tab_open, l + seq!['\n'] + (rest + y));
    lemma_lines_prefix_line(l, rest + y);
    lemma_entry_rest_lines(ids, y);
    assert(rest + y =~= entry_middle().skip(2) + apps_body(ids) + entry_tail() + y);
    let q = seq![strip_cr(u2 + w), tab_open];
    assert forall|i: int| 0 <= i < u.len() implies !is_path_line(#[trigger] u[i], e) by {
        assert(u[i] == ls[i]);
    }
    assert forall|i: int| 1 <= i < q.len() implies trim(#[trigger] q[i]) != "\"apps\""@ by {
        assert(q[1] == tab_open);
    }
    let tail_lines = lines("\t}\n"@ + y);
    assert(lines(whole) =~= u + q + seq![l] + entry_fixed_lines() + ids.map_values(
        |id: u32| app_line(id),
    ) + seq![block_close_line()] + tail_lines);
    lemma_new_entry_found(lines(whole), u, q, e, ids, tail_lines);
}

/// A new entry appended after the trimmed text: found again, naming every
/// ID.
#[verifier::rlimit(60)]
proof fn lemma_reapply_appended(vdf: Seq<char>, e: Seq<char>, ids: Seq<u32>)
    requires
        !is_registered(vdf, e),
        has_no_newline(e),
    ensures
        ({
            let entry = library_entry(max_index(lines(vdf)) + 1, e, ids);
            let r = lines(trim_end(vdf) + seq!['\n'] + entry);
            apps_block(r, e) matches Some((a, o, c)) && missing_app_lines(
                block_text(r, o, c),
                ids,
            ).len() == 0
        }),
{
    let ls = lines(vdf);
    lemma_find_path_line_first(ls, e, 0);
    let idx = max_index(ls) + 1;
    let entry = library_entry(idx, e, ids);
    lemma_entry_shape(idx, e, ids);
    lemma_entry_path_line(e);
    lemma_entry_lead(idx);
    lemma_tab_open();
    let w = entry_lead(idx);
    let tab_open = seq!['\t', '{'];
    let l = entry_path_line(e);
    let rest = entry_middle().skip(2) + apps_body(ids) + entry_tail();
    lemma_trim_end_prefix(vdf);
    let j = trim_end(vdf).len() as int;
    let empty = Seq::<char>::empty();
    assert(vdf.take(j) + empty =~= trim_end(vdf));
    let whole = trim_end(vdf) + seq!['\n'] + entry;
    assert(whole =~= (vdf.take(j) + empty + seq!['\n']) + (w + seq!['\n'] + (tab_open + seq![
        '\n',
    ] + (l + seq!['\n'] + (rest + empty)))));
    let (u, u2) = lemma_lines_of_prefix(vdf, j, empty);
    lemma_lines_append(
        vdf.take(j) + empty + seq!['\n'],
        w + seq!['\n'] + (tab_open + seq!['\n'] + (l + seq!['\n'] + (rest + empty))),
    );
    lemma_lines_prefix_line(w, tab_open + seq!['\n'] + (l + seq!['\n'] + (rest + empty)));
    lemma_lines_prefix_line(tab_open, l + seq!['\n'] + (rest + empty));
    lemma_lines_prefix_line(l, rest + empty);
    lemma_entry_rest_lines(ids, empty);
    assert(rest + empty =~= entry_middle().skip(2) + apps_body(ids) + entry_tail() + empty);
    assert(u2 + empty =~= u2);
    let q = seq![strip_cr(u2), w, tab_open];
    assert forall|i: int| 0 <= i < u.len() implies !is_path_line(#[trigger] u[i], e) by {
        assert(u[i] == ls[i]);
    }
    assert forall|i: int| 1 <= i < q.len() implies trim(#[trigger] q[i]) != "\"apps\""@ by {
        assert(q[1] == w);
        assert(q[2] == tab_open);
    }
    let tail_lines = lines("\t}\n"@ + empty);
    assert(lines(whole) =~= u + q + seq![l] + entry_fixed_lines() + ids.map_values(
        |id: u32| app_line(id),
    ) + seq![block_close_line()] + tail_lines);
    lemma_new_entry_found(lines(whole), u, q, e, ids, tail_lines);
}

/// Applying the same registration a second time changes nothing: the
/// library is found registered, and its `apps` block already names every
/// ID.
pub proof fn lemma_apply_idempotent(vdf: Seq<char>, library_root: Seq<char>, ids: Seq<u32>)
    requires
        can_apply(vdf, library_root),
        has_no_newline(library_root),
    ensures
        can_apply(apply_library_spec(vdf, library_root, ids), library_root),
        apply_library_spec(apply_library_spec(vdf, library_root, ids), library_root, ids)
            == apply_library_spec(vdf, library_root, ids),
{
    let e = escape_path_spec(library_root);
    lemma_apply_registers(vdf, library_root, ids);
    lemma_escape_no_newline(library_root);
    let ls = lines(vdf);
    if is_registered(vdf, e) {
        if let Some((a, o, c)) = apps_block(ls, e) {
            let ins = missing_app_lines(block_text(ls, o, c), ids);
            if ins.len() > 0 {
                lemma_edited_block_found(vdf, e, ids);
            }
        }
    } else {
        lemma_last_index_of_range(vdf, '}');
        match last_index_of(vdf, '}') {
            Some(pos) => {
                lemma_reapply_before_brace(vdf, e, ids, pos);
            },
            None => {
                lemma_reapply_appended(vdf, e, ids);
            },
        }
    }
}


/// After `apply_library`, the `apps` block of the library's entry names
/// every requested App ID (by its quoted number). This holds unless the
/// library is registered with no `apps` block after its path line, which is
/// then left as it was; a root with a newline is never registered.
pub proof fn lemma_apply_fills_apps_block(vdf: Seq<char>, library_root: Seq<char>, ids: Seq<u32>)
    requires
        can_apply(vdf, library_root),
        has_no_newline(library_root),
        !is_registered(vdf, escape_path_spec(library_root)) || apps_block(
            lines(vdf),
            escape_path_spec(library_root),
        ) is Some,
    ensures
        ({
            let r = lines(apply_library_spec(vdf, library_root, ids));
            let found = apps_block(r, escape_path_spec(library_root));
            let (a, o, c) = found->0;
            &&& found is Some
            &&& forall|k: int|
                0 <= k < ids.len() ==> contains(
                    block_text(r, o, c),
                    quoted(decimal(#[trigger] ids[k] as nat)),
                )
        }),
{
    let e = escape_path_spec(library_root);
    lemma_escape_no_newline(library_root);
    let ls = lines(vdf);
    if is_registered(vdf, e) {
        let (a, o, c) = apps_block(ls, e)->0;
        let ins = missing_app_lines(block_text(ls, o, c), ids);
        if ins.len() > 0 {
            lemma_edited_block_found(vdf, e, ids);
        }
    } else {
        lemma_last_index_of_range(vdf, '}');
        match last_index_of(vdf, '}') {
            Some(pos) => {
                lemma_reapply_before_brace(vdf, e, ids, pos);
            },
            None => {
                lemma_reapply_appended(vdf, e, ids);
            },
        }
    }
    let r = lines(apply_library_spec(vdf, library_root, ids));
    let (a2, o2, c2) = apps_block(r, e)->0;
    let block = block_text(r, o2, c2);
    assert(missing_app_lines(block, ids).len() == 0);
    assert forall|k: int| 0 <= k < ids.len() implies contains(
        block,
        quoted(decimal(#[trigger] ids[k] as nat)),
    ) by {
        lemma_missing_covers(block, ids, k);
    }
}

// ── escaping, undone ────────────────────────────────────────────────────────

/// Reading an escaped path back, as `str::replace` of `\\` by `\` does:
/// from left to right, each pair of backslashes becomes one.
pub open spec fn unescape_path_spec(s: Seq<char>) -> Seq<char>
    decreases s.len(),
{
    if s.len() == 0 {
        Seq::empty()
    } else if s.len() >= 2 && s[0] == '\\' && s[1] == '\\' {
        seq!['\\'] + unescape_path_spec(s.skip(2))
    } else {
        seq![s[0]] + unescape_path_spec(s.skip(1))
    }
}

/// The number of backslashes in `p`.
pub open spec fn backslash_count(p: Seq<char>) -> nat
    decreases p.len(),
{
    if p.len() == 0 {
        0
    } else {
        backslash_count(p.drop_last()) + if p.last() == '\\' {
            1nat
        } else {
            0nat
        }
    }
}

/// The escaping of one character.
pub open spec fn escape_char(c: char) -> Seq<char> {
    if c == '\\' {
        seq!['\\', '\\']
    } else {
        seq![c]
    }
}

/// Escaping works character by character, from the front as well.
proof fn lemma_escape_first(p: Seq<char>)
    requires
        p.len() > 0,
    ensures
        escape_path_spec(p) == escape_char(p[0]) + escape_path_spec(p.drop_first()),
    decreases p.len(),
{
    if p.len() == 1 {
        assert(p.drop_last() =~= Seq::<char>::empty());
        assert(p.drop_first() =~= Seq::<char>::empty());
        assert(p.last() == p[0]);
        assert(escape_path_spec(p) =~= escape_char(p[0]) + escape_path_spec(p.drop_first()));
    } else {
        let d = p.drop_last();
        lemma_escape_first(d);
        assert(d[0] == p[0]);
        assert(d.drop_first() =~= p.drop_first().drop_last());
        assert(p.drop_first().last() == p.last());
        assert(escape_path_spec(p) =~= escape_char(p[0]) + escape_path_spec(p.drop_first()));
    }
}

/// Reading the escaped path back gives the path: every backslash that
/// escaping doubled is halved again, and nothing else changes.
pub proof fn lemma_escape_path_round_trip(p: Seq<char>)
    ensures
        unescape_path_spec(escape_path_spec(p)) == p,
    decreases p.len(),
{
    if p.len() > 0 {
        lemma_escape_first(p);
        let rest = p.drop_first();
        lemma_escape_path_round_trip(rest);
        let e = escape_path_spec(p);
        let er = escape_path_spec(rest);
        if p[0] == '\\' {
            assert(e[0] == '\\' && e[1] == '\\');
            assert(e.skip(2) =~= er);
        } else {
            assert(e[0] == p[0]);
            assert(e.skip(1) =~= er);
        }
        assert(p =~= seq![p[0]] + rest);
    }
}

/// Escaping adds one character for each backslash of the path.
pub proof fn lemma_escape_path_len(p: Seq<char>)
    ensures
        escape_path_spec(p).len() == p.len() + backslash_count(p),
    decreases p.len(),
{
    if p.len() > 0 {
        lemma_escape_path_len(p.drop_last());
    }
}

// ── a built entry is complete ───────────────────────────────────────────────

/// An entry built for some App IDs already lists each of them:
/// `ensure_apps_in_entry` on it, for the same path and IDs, leaves it as it
/// is.
#[verifier::rlimit(60)]
pub proof fn lemma_built_entry_complete(index: nat, escaped: Seq<char>, ids: Seq<u32>)
    ensures
        ensure_apps_spec(library_entry(index, escaped, ids), escaped, ids) == library_entry(
            index,
            escaped,
            ids,
        ),
{
    let entry = library_entry(index, escaped, ids);
    let ls = lines(entry);
    if !has_no_newline(escaped) {
        let j = choose|j: int| 0 <= j < escaped.len() && escaped[j] == '\n';
        let q = quoted(escaped);
        assert(q[j + 1] == '\n');
        lemma_lines_no_newline_each(entry);
        lemma_find_path_line_found(ls, escaped, 0);
        if let Some(p) = find_path_line(ls, escaped, 0) {
            assert forall|m: int| 0 <= m < ls[p].len() implies #[trigger] ls[p][m] != q[j + 1] by {}
            lemma_not_contains(ls[p], q, j + 1);
        }
        assert(apps_block(ls, escaped) is None);
    } else {
        lemma_entry_shape(index, escaped, ids);
        lemma_entry_path_line(escaped);
        lemma_entry_lead(index);
        lemma_tab_open();
        let w = entry_lead(index);
        let tab_open = seq!['\t', '{'];
        let l = entry_path_line(escaped);
        let empty = Seq::<char>::empty();
        let rest = entry_middle().skip(2) + apps_body(ids) + entry_tail();
        assert(entry =~= w + seq!['\n'] + (tab_open + seq!['\n'] + (l + seq!['\n'] + (rest
            + empty))));
        lemma_lines_prefix_line(w, tab_open + seq!['\n'] + (l + seq!['\n'] + (rest + empty)));
        lemma_lines_prefix_line(tab_open, l + seq!['\n'] + (rest + empty));
        lemma_lines_prefix_line(l, rest + empty);
        lemma_entry_rest_lines(ids, empty);
        assert(rest + empty =~= entry_middle().skip(2) + apps_body(ids) + entry_tail() + empty);
        let u = Seq::<Seq<char>>::empty();
        let q = seq![w, tab_open];
        assert forall|i: int| 1 <= i < q.len() implies trim(#[trigger] q[i]) != "\"apps\""@ by {
            assert(q[1] == tab_open);
        }
        let tail_lines = lines("\t}\n"@ + empty);
        assert(ls =~= u + q + seq![l] + entry_fixed_lines() + ids.map_values(
            |id: u32| app_line(id),
        ) + seq![block_close_line()] + tail_lines);
        lemma_new_entry_found(ls, u, q, escaped, ids, tail_lines);
    }
}

} // verus!

//! Character-level text model shared by the KeyValues and manifest code:
//! lines, trimming, substring search, joining and decimal rendering, each
//! with a spec function over `Seq<char>` and an executable counterpart.
use vstd::prelude::*;
use vstd::utf8::{encode_scalar, encode_utf8};

verus! {

broadcast use vstd::string::group_string_axioms;

// ── whitespace and trimming ─────────────────────────────────────────────────

/// Unicode `White_Space`, the set that `str::trim` removes.
pub open spec fn is_whitespace(c: char) -> bool {
    let u = c as u32;
    ||| (9 <= u && u <= 13)
    ||| u == 32
    ||| u == 0x85
    ||| u == 0xA0
    ||| u == 0x1680
    ||| (0x2000 <= u && u <= 0x200A)
    ||| u == 0x2028
    ||| u == 0x2029
    ||| u == 0x202F
    ||| u == 0x205F
    ||| u == 0x3000
}

pub open spec fn trim_start(s: Seq<char>) -> Seq<char>
    decreases s.len(),
{
    if s.len() > 0 && is_whitespace(s[0]) {
        trim_start(s.drop_first())
    } else {
        s
    }
}

pub open spec fn trim_end(s: Seq<char>) -> Seq<char>
    decreases s.len(),
{
    if s.len() > 0 && is_whitespace(s.last()) {
        trim_end(s.drop_last())
    } else {
        s
    }
}

/// What `str::trim` leaves of `s`.
pub open spec fn trim(s: Seq<char>) -> Seq<char> {
    trim_end(trim_start(s))
}

pub fn is_whitespace_char(c: char) -> (b: bool)
    ensures
        b == is_whitespace(c),
{
    let u = c as u32;
    (9 <= u && u <= 13) || u == 32 || u == 0x85 || u == 0xA0 || u == 0x1680 || (0x2000 <= u && u
        <= 0x200A) || u == 0x2028 || u == 0x2029 || u == 0x202F || u == 0x205F || u == 0x3000
}

/// The characters `s[lo..hi]` as a vector.
pub fn copy_range(s: &[char], lo: usize, hi: usize) -> (v: Vec<char>)
    requires
        lo <= hi <= s@.len(),
    ensures
        v@ == s@.subrange(lo as int, hi as int),
{
    let mut v: Vec<char> = Vec::new();
    let mut i = lo;
    while i < hi
        invariant
            lo <= i <= hi <= s@.len(),
            v@ == s@.subrange(lo as int, i as int),
        decreases hi - i,
    {
        v.push(s[i]);
        assert(s@.subrange(lo as int, i + 1) =~= s@.subrange(lo as int, i as int).push(s@[i as int]));
        i += 1;
    }
    v
}

/// Bounds `(a, b)` with `s[a..b] == trim(s)`.
pub fn trim_bounds(s: &[char]) -> (r: (usize, usize))
    ensures
        r.0 <= r.1 <= s@.len(),
        s@.subrange(r.0 as int, r.1 as int) == trim(s@),
{
    let n = s.len();
    let mut i: usize = 0;
    assert(s@.skip(0) =~= s@);
    while i < n && is_whitespace_char(s[i])
        invariant
            i <= n == s@.len(),
            trim_start(s@) == trim_start(s@.skip(i as int)),
        decreases n - i,
    {
        assert(s@.skip(i as int).drop_first() =~= s@.skip(i + 1));
        i += 1;
    }
    assert(trim_start(s@) == s@.skip(i as int));
    let mut j: usize = n;
    assert(s@.skip(i as int) =~= s@.subrange(i as int, n as int));
    while j > i && is_whitespace_char(s[j - 1])
        invariant
            i <= j <= n == s@.len(),
            trim_end(s@.subrange(i as int, n as int)) == trim_end(s@.subrange(i as int, j as int)),
        decreases j,
    {
        assert(s@.subrange(i as int, j as int).drop_last() =~= s@.subrange(i as int, j - 1));
        j -= 1;
    }
    (i, j)
}

/// `trim(s)` as a vector.
pub fn trim_chars(s: &[char]) -> (t: Vec<char>)
    ensures
        t@ == trim(s@),
{
    let (a, b) = trim_bounds(s);
    copy_range(s, a, b)
}

/// The trailing-whitespace-free prefix of `s`.
pub fn trim_end_chars(s: &[char]) -> (t: Vec<char>)
    ensures
        t@ == trim_end(s@),
{
    let mut j: usize = s.len();
    assert(s@.subrange(0, s@.len() as int) =~= s@);
    while j > 0 && is_whitespace_char(s[j - 1])
        invariant
            j <= s@.len(),
            trim_end(s@) == trim_end(s@.subrange(0, j as int)),
        decreases j,
    {
        assert(s@.subrange(0, j as int).drop_last() =~= s@.subrange(0, j - 1));
        j -= 1;
    }
    copy_range(s, 0, j)
}

// ── substring search ────────────────────────────────────────────────────────

/// `needle` occurs in `hay` at position `i`.
pub open spec fn occurs_at(hay: Seq<char>, needle: Seq<char>, i: int) -> bool {
    0 <= i && i + needle.len() <= hay.len() && hay.subrange(i, i + needle.len()) == needle
}

/// `str::contains` for a string pattern.
pub open spec fn contains(hay: Seq<char>, needle: Seq<char>) -> bool {
    exists|i: int| occurs_at(hay, needle, i)
}

pub open spec fn starts_with(s: Seq<char>, prefix: Seq<char>) -> bool {
    prefix.len() <= s.len() && s.subrange(0, prefix.len() as int) == prefix
}

fn occurs_at_exec(hay: &[char], needle: &[char], i: usize) -> (b: bool)
    requires
        i + needle@.len() <= hay@.len(),
    ensures
        b == occurs_at(hay@, needle@, i as int),
{
    let mut k: usize = 0;
    let hl = hay.len();
    while k < needle.len()
        invariant
            hl == hay@.len(),
            i + needle@.len() <= hay@.len(),
            k <= needle@.len(),
            forall|m: int| 0 <= m < k ==> hay@[i + m] == needle@[m],
        decreases needle@.len() - k,
    {
        assert(i + k < hay@.len());
        if hay[i + k] != needle[k] {
            assert(hay@.subrange(i as int, i + needle@.len())[k as int] != needle@[k as int]);
            return false;
        }
        k += 1;
    }
    assert(hay@.subrange(i as int, i + needle@.len()) =~= needle@);
    true
}

pub fn contains_chars(hay: &[char], needle: &[char]) -> (b: bool)
    ensures
        b == contains(hay@, needle@),
{
    if needle.len() > hay.len() {
        return false;
    }
    let last = hay.len() - needle.len();
    let mut i: usize = 0;
    while i <= last
        invariant
            last + needle@.len() == hay@.len(),
            i <= last + 1,
            forall|j: int| 0 <= j < i ==> !occurs_at(hay@, needle@, j),
        ensures
            forall|j: int| 0 <= j <= last ==> !occurs_at(hay@, needle@, j),
        decreases last + 1 - i,
    {
        if occurs_at_exec(hay, needle, i) {
            return true;
        }
        if i == last {
            break;
        }
        i += 1;
    }
    false
}

pub fn starts_with_chars(s: &[char], prefix: &[char]) -> (b: bool)
    ensures
        b == starts_with(s@, prefix@),
{
    if prefix.len() > s.len() {
        return false;
    }
    let b = occurs_at_exec(s, prefix, 0);
    b
}

// ── lines ───────────────────────────────────────────────────────────────────

/// The pieces of `s` between `'\n'` characters (one more than the number of
/// newlines).
pub open spec fn split_newlines(s: Seq<char>) -> Seq<Seq<char>>
    decreases s.len(),
{
    if s.len() == 0 {
        seq![Seq::<char>::empty()]
    } else {
        let p = split_newlines(s.drop_last());
        if s.last() == '\n' {
            p.push(Seq::<char>::empty())
        } else {
            p.update(p.len() - 1, p.last().push(s.last()))
        }
    }
}

pub open spec fn strip_cr(l: Seq<char>) -> Seq<char> {
    if l.len() > 0 && l.last() == '\r' {
        l.drop_last()
    } else {
        l
    }
}

/// `str::lines`: every piece followed by `'\n'` loses one trailing `'\r'`;
/// the final piece is kept as it is unless it is empty.
pub open spec fn lines(s: Seq<char>) -> Seq<Seq<char>> {
    let p = split_newlines(s);
    let done = Seq::new((p.len() - 1) as nat, |i: int| strip_cr(p[i]));
    if p.last().len() == 0 {
        done
    } else {
        done.push(p.last())
    }
}

pub proof fn lemma_split_newlines_len(s: Seq<char>)
    ensures
        split_newlines(s).len() >= 1,
    decreases s.len(),
{
    if s.len() > 0 {
        lemma_split_newlines_len(s.drop_last());
    }
}

fn strip_cr_vec(l: Vec<char>) -> (r: Vec<char>)
    ensures
        r@ == strip_cr(l@),
{
    let mut l = l;
    if l.len() > 0 && l[l.len() - 1] == '\r' {
        l.pop();
    }
    l
}

/// The texts held by a vector of character vectors.
pub open spec fn lines_view(ls: Seq<Vec<char>>) -> Seq<Seq<char>> {
    ls.map_values(|l: Vec<char>| l@)
}

/// The lines of `s`, as `str::lines` yields them.
pub fn lines_of(s: &[char]) -> (ls: Vec<Vec<char>>)
    ensures
        lines_view(ls@) == lines(s@),
{
    let mut done: Vec<Vec<char>> = Vec::new();
    let mut cur: Vec<char> = Vec::new();
    let n = s.len();
    let mut i: usize = 0;
    proof {
        assert(s@.take(0) =~= Seq::<char>::empty());
    }
    while i < n
        invariant
            i <= n == s@.len(),
            split_newlines(s@.take(i as int)).len() == done@.len() + 1,
            lines_view(done@) =~= Seq::new(
                done@.len() as nat,
                |j: int| strip_cr(split_newlines(s@.take(i as int))[j]),
            ),
            cur@ == split_newlines(s@.take(i as int)).last(),
        decreases n - i,
    {
        let ghost before = split_newlines(s@.take(i as int));
        proof {
            assert(s@.take(i + 1).drop_last() =~= s@.take(i as int));
            lemma_split_newlines_len(s@.take(i as int));
        }
        let c = s[i];
        let ghost old_done = lines_view(done@);
        proof {
            assert(s@.take(i + 1).last() == c);
        }
        if c == '\n' {
            let line = strip_cr_vec(cur);
            let ghost lv = line@;
            done.push(line);
            cur = Vec::new();
            proof {
                let after = split_newlines(s@.take(i + 1));
                assert(after == before.push(Seq::<char>::empty()));
                assert(lines_view(done@) =~= old_done.push(lv));
                assert(lines_view(done@) =~= Seq::new(
                    done@.len() as nat,
                    |j: int| strip_cr(after[j]),
                ));
            }
        } else {
            cur.push(c);
            proof {
                let after = split_newlines(s@.take(i + 1));
                assert(after == before.update(before.len() - 1, before.last().push(c)));
                assert(lines_view(done@) =~= Seq::new(
                    done@.len() as nat,
                    |j: int| strip_cr(after[j]),
                ));
            }
        }
        i += 1;
    }
    proof {
        assert(s@.take(n as int) =~= s@);
        lemma_split_newlines_len(s@);
    }
    if cur.len() > 0 {
        let ghost old_done = lines_view(done@);
        let ghost cv = cur@;
        done.push(cur);
        proof {
            assert(lines_view(done@) =~= old_done.push(cv));
            assert(lines_view(done@) =~= lines(s@));
        }
    } else {
        proof {
            assert(lines_view(done@) =~= lines(s@));
        }
    }
    done
}

/// `lines.join("\n")`.
pub open spec fn join_lines(ls: Seq<Seq<char>>) -> Seq<char>
    decreases ls.len(),
{
    if ls.len() == 0 {
        Seq::empty()
    } else if ls.len() == 1 {
        ls[0]
    } else {
        join_lines(ls.drop_last()) + seq!['\n'] + ls.last()
    }
}

pub fn join_lines_exec(ls: &Vec<Vec<char>>) -> (out: Vec<char>)
    ensures
        out@ == join_lines(lines_view(ls@)),
{
    let mut out: Vec<char> = Vec::new();
    let mut i: usize = 0;
    proof {
        assert(lines_view(ls@).take(0) =~= Seq::<Seq<char>>::empty());
    }
    while i < ls.len()
        invariant
            i <= ls@.len(),
            out@ == join_lines(lines_view(ls@).take(i as int)),
        decreases ls@.len() - i,
    {
        proof {
            assert(lines_view(ls@).take(i + 1).drop_last() =~= lines_view(ls@).take(i as int));
            assert(lines_view(ls@).take(i + 1).last() == ls@[i as int]@);
        }
        if i > 0 {
            out.push('\n');
        }
        append_chars(&mut out, &ls[i]);
        i += 1;
    }
    proof {
        assert(lines_view(ls@).take(ls@.len() as int) =~= lines_view(ls@));
    }
    out
}

// ── building text ───────────────────────────────────────────────────────────

/// Appends the characters of `more` to `v`.
pub fn append_chars(v: &mut Vec<char>, more: &[char])
    ensures
        final(v)@ == old(v)@ + more@,
{
    let mut k: usize = 0;
    while k < more.len()
        invariant
            k <= more@.len(),
            v@ == old(v)@ + more@.take(k as int),
        decreases more@.len() - k,
    {
        v.push(more[k]);
        assert(more@.take(k + 1) =~= more@.take(k as int).push(more@[k as int]));
        k += 1;
    }
    assert(more@.take(more@.len() as int) =~= more@);
}

/// Appends the characters of the string slice `more` to `v`.
pub fn append_str(v: &mut Vec<char>, more: &str)
    ensures
        final(v)@ == old(v)@ + more@,
{
    let cs = chars_of(more);
    append_chars(v, &cs);
}

/// The characters of `s`, in order.
pub fn chars_of(s: &str) -> (v: Vec<char>)
    ensures
        v@ == s@,
{
    let mut v: Vec<char> = Vec::new();
    for c in it: s.chars()
        invariant
            v@ == it.seq().take(it.index() as int),
            it.seq() == s@,
    {
        v.push(c);
    }
    v
}

/// `String: FromIterator<&char>` (`collect`): a string holding exactly the
/// given characters, in order.
#[verifier::external_body]
pub fn string_from_chars(chars: &[char]) -> (s: String)
    ensures
        s@ == chars@,
{
    chars.iter().collect()
}

// ── UTF-8 byte offsets ──────────────────────────────────────────────────────

/// The number of bytes of `c` in UTF-8.
fn utf8_width(c: char) -> (n: usize)
    ensures
        n == encode_scalar(c as u32).len(),
{
    proof {
        vstd::utf8::char_is_scalar(c);
    }
    let u = c as u32;
    if u <= 0x7F {
        1
    } else if u <= 0x7FF {
        2
    } else if u <= 0xFFFF {
        3
    } else {
        4
    }
}

/// UTF-8 encoding distributes over concatenation.
pub proof fn lemma_encode_utf8_concat(a: Seq<char>, b: Seq<char>)
    ensures
        encode_utf8(a + b) == encode_utf8(a) + encode_utf8(b),
    decreases a.len(),
{
    if a.len() == 0 {
        assert(a + b =~= b);
        assert(encode_utf8(a) + encode_utf8(b) =~= encode_utf8(b));
    } else {
        lemma_encode_utf8_concat(a.drop_first(), b);
        assert((a + b).drop_first() =~= a.drop_first() + b);
        assert((a + b)[0] == a[0]);
        assert(encode_utf8(a + b) =~= encode_utf8(a) + encode_utf8(b));
    }
}

/// The UTF-8 encoding of one character.
pub proof fn lemma_encode_utf8_single(c: char)
    ensures
        encode_utf8(seq![c]) == encode_scalar(c as u32),
{
    let one = seq![c];
    assert(one.drop_first() =~= Seq::<char>::empty());
    assert(one[0] == c);
    assert(encode_utf8(one.drop_first()) =~= Seq::<u8>::empty());
    assert(encode_utf8(one) == encode_scalar(c as u32) + encode_utf8(one.drop_first()));
    assert(encode_scalar(c as u32) + Seq::<u8>::empty() =~= encode_scalar(c as u32));
}

/// The byte offset in `s` of its character `i`, given the characters of
/// `s`: the length of the UTF-8 encoding of the characters before it.
pub fn utf8_offset(s: &str, chars: &[char], i: usize) -> (b: usize)
    requires
        chars@ == s@,
        i <= chars@.len(),
    ensures
        b == encode_utf8(s@.take(i as int)).len(),
{
    let total = s.as_bytes().len();
    let mut b: usize = 0;
    let mut k: usize = 0;
    assert(s@.take(0) =~= Seq::<char>::empty());
    while k < i
        invariant
            k <= i <= chars@.len(),
            chars@ == s@,
            total == encode_utf8(s@).len(),
            b == encode_utf8(s@.take(k as int)).len(),
        decreases i - k,
    {
        let c = chars[k];
        proof {
            let pre = s@.take(k as int);
            let next = s@.take(k + 1);
            assert(next =~= pre + seq![c]);
            lemma_encode_utf8_concat(pre, seq![c]);
            lemma_encode_utf8_single(c);
            assert(s@ =~= next + s@.skip(k + 1));
            lemma_encode_utf8_concat(next, s@.skip(k + 1));
        }
        let w = utf8_width(c);
        b = b + w;
        k += 1;
    }
    b
}

// ── decimal rendering ───────────────────────────────────────────────────────

pub open spec fn digit_char(d: nat) -> char {
    ((d + 48) as u32) as char
}

/// The decimal digits of `n`, as `{}` formats an unsigned integer.
pub open spec fn decimal(n: nat) -> Seq<char>
    decreases n,
{
    if n < 10 {
        seq![digit_char(n)]
    } else {
        decimal(n / 10).push(digit_char(n % 10))
    }
}

fn digit(d: u32) -> (c: char)
    requires
        d < 10,
    ensures
        c == digit_char(d as nat),
{
    let b: u8 = (d as u8) + 48u8;
    let c = b as char;
    assert(c == digit_char(d as nat)) by {
        assert((b as u32) == d + 48);
    }
    c
}

/// The decimal digits of `n`.
pub fn decimal_chars(n: u32) -> (v: Vec<char>)
    ensures
        v@ == decimal(n as nat),
    decreases n,
{
    if n < 10 {
        let mut v: Vec<char> = Vec::new();
        v.push(digit(n));
        assert(v@ =~= seq![digit_char(n as nat)]);
        v
    } else {
        let mut v = decimal_chars(n / 10);
        v.push(digit(n % 10));
        v
    }
}

} // verus!

verus! {

// ── facts about lines and joins ─────────────────────────────────────────────

pub open spec fn has_no_newline(s: Seq<char>) -> bool {
    forall|k: int| 0 <= k < s.len() ==> #[trigger] s[k] != '\n'
}

proof fn lemma_split_no_newline(s: Seq<char>)
    requires
        has_no_newline(s),
    ensures
        split_newlines(s) == seq![s],
    decreases s.len(),
{
    if s.len() > 0 {
        let t = s.drop_last();
        assert(has_no_newline(t)) by {
            assert forall|k: int| 0 <= k < t.len() implies #[trigger] t[k] != '\n' by {
                assert(t[k] == s[k]);
            }
        }
        lemma_split_no_newline(t);
        assert(s[s.len() - 1] != '\n');
        assert(t.push(s.last()) =~= s);
        assert(split_newlines(s) =~= seq![s]);
    } else {
        assert(s =~= Seq::<char>::empty());
        assert(split_newlines(s) =~= seq![s]);
    }
}

proof fn lemma_split_append(a: Seq<char>, y: Seq<char>)
    requires
        a.len() > 0,
        a.last() == '\n',
    ensures
        split_newlines(a + y) == split_newlines(a).drop_last() + split_newlines(y),
    decreases y.len(),
{
    lemma_split_newlines_len(a.drop_last());
    if y.len() == 0 {
        assert(a + y =~= a);
        assert(split_newlines(a).drop_last() + split_newlines(y) =~= split_newlines(a));
    } else {
        let y2 = y.drop_last();
        lemma_split_append(a, y2);
        lemma_split_newlines_len(y2);
        assert((a + y).drop_last() =~= a + y2);
        assert((a + y).last() == y.last());
        let pa = split_newlines(a).drop_last();
        let q = split_newlines(a + y2);
        if y.last() == '\n' {
            assert(split_newlines(a + y) =~= pa + split_newlines(y));
        } else {
            let py = split_newlines(y2);
            assert(q == pa + py);
            assert(q.update(q.len() - 1, q.last().push(y.last())) =~= pa + py.update(
                py.len() - 1,
                py.last().push(y.last()),
            ));
        }
    }
}

/// The lines of a text that ends a line, followed by more text, are the
/// lines of the first part followed by those of the second.
pub proof fn lemma_lines_append(a: Seq<char>, y: Seq<char>)
    requires
        a.len() > 0,
        a.last() == '\n',
    ensures
        lines(a + y) == lines(a) + lines(y),
{
    lemma_split_append(a, y);
    lemma_split_newlines_len(a.drop_last());
    lemma_split_newlines_len(y);
    let pa = split_newlines(a);
    let py = split_newlines(y);
    let p = split_newlines(a + y);
    assert(pa.last().len() == 0);
    assert(p.last() == py.last());
    let la = Seq::new((pa.len() - 1) as nat, |i: int| strip_cr(pa[i]));
    assert(lines(a) == la);
    let dy = Seq::new((py.len() - 1) as nat, |i: int| strip_cr(py[i]));
    let dp = Seq::new((p.len() - 1) as nat, |i: int| strip_cr(p[i]));
    assert(dp =~= la + dy);
    if py.last().len() == 0 {
        assert(lines(a + y) =~= lines(a) + lines(y));
    } else {
        assert(lines(a + y) =~= lines(a) + lines(y));
    }
}

/// A line without a newline, ended by one, is a single line.
pub proof fn lemma_lines_single(l: Seq<char>)
    requires
        has_no_newline(l),
    ensures
        lines(l + seq!['\n']) == seq![strip_cr(l)],
{
    lemma_split_no_newline(l);
    let s = l + seq!['\n'];
    assert(s.drop_last() =~= l);
    assert(split_newlines(s) =~= seq![l, Seq::<char>::empty()]);
    assert(lines(s) =~= seq![strip_cr(l)]);
}

/// A text without a newline has itself as its only line (none if empty).
pub proof fn lemma_lines_no_newline(l: Seq<char>)
    requires
        has_no_newline(l),
    ensures
        lines(l) == (if l.len() == 0 {
            Seq::<Seq<char>>::empty()
        } else {
            seq![l]
        }),
{
    lemma_split_no_newline(l);
    assert(lines(l) =~= (if l.len() == 0 {
        Seq::<Seq<char>>::empty()
    } else {
        seq![l]
    }));
}

/// `x`, a newline, a newline-free `l`, a newline and `b`: `l` (without a
/// trailing carriage return) is a line, right after the lines of `x`.
pub proof fn lemma_line_between(x: Seq<char>, l: Seq<char>, b: Seq<char>)
    requires
        has_no_newline(l),
    ensures
        lines(x + seq!['\n'] + l + seq!['\n'] + b) == lines(x + seq!['\n']) + seq![strip_cr(l)]
            + lines(b),
{
    let a = x + seq!['\n'];
    let m = l + seq!['\n'];
    lemma_lines_append(a, m + b);
    lemma_lines_append(m, b);
    lemma_lines_single(l);
    assert(x + seq!['\n'] + l + seq!['\n'] + b =~= a + (m + b));
}

/// Joined with newlines and ended by one, newline-free lines come back as
/// lines (each without a trailing carriage return).
pub proof fn lemma_lines_join_ended(m: Seq<Seq<char>>)
    requires
        m.len() > 0,
        forall|i: int| 0 <= i < m.len() ==> has_no_newline(#[trigger] m[i]),
    ensures
        lines(join_lines(m) + seq!['\n']) == m.map_values(|l: Seq<char>| strip_cr(l)),
    decreases m.len(),
{
    if m.len() == 1 {
        lemma_lines_single(m[0]);
        assert(m.map_values(|l: Seq<char>| strip_cr(l)) =~= seq![strip_cr(m[0])]);
    } else {
        let m2 = m.drop_last();
        assert forall|i: int| 0 <= i < m2.len() implies has_no_newline(#[trigger] m2[i]) by {
            assert(m2[i] == m[i]);
        }
        lemma_lines_join_ended(m2);
        let a = join_lines(m2) + seq!['\n'];
        assert(join_lines(m) + seq!['\n'] =~= a + (m.last() + seq!['\n']));
        lemma_lines_append(a, m.last() + seq!['\n']);
        assert(has_no_newline(m[m.len() - 1]));
        lemma_lines_single(m.last());
        assert(m.map_values(|l: Seq<char>| strip_cr(l)) =~= m2.map_values(
            |l: Seq<char>| strip_cr(l),
        ).push(strip_cr(m.last())));
    }
}

/// The lines of newline-free lines joined with newlines: all but the last
/// come back (without a trailing carriage return), then the last one's lines.
pub proof fn lemma_lines_join(m: Seq<Seq<char>>)
    requires
        m.len() > 0,
        forall|i: int| 0 <= i < m.len() ==> has_no_newline(#[trigger] m[i]),
    ensures
        lines(join_lines(m)) == m.drop_last().map_values(|l: Seq<char>| strip_cr(l)) + lines(
            m.last(),
        ),
{
    if m.len() == 1 {
        assert(m.drop_last().map_values(|l: Seq<char>| strip_cr(l)) =~= Seq::<Seq<char>>::empty());
        assert(lines(join_lines(m)) =~= Seq::<Seq<char>>::empty() + lines(m.last()));
    } else {
        let m2 = m.drop_last();
        assert forall|i: int| 0 <= i < m2.len() implies has_no_newline(#[trigger] m2[i]) by {
            assert(m2[i] == m[i]);
        }
        lemma_lines_join_ended(m2);
        lemma_lines_append(join_lines(m2) + seq!['\n'], m.last());
    }
}

/// `piece` stands in `s` at `off`.
pub open spec fn is_piece_at(s: Seq<char>, off: int, piece: Seq<char>) -> bool {
    0 <= off && off + piece.len() <= s.len() && s.subrange(off, off + piece.len()) == piece
}

/// Where the `i`-th piece between newlines starts.
pub open spec fn piece_start(s: Seq<char>, i: int) -> int
    decreases s.len(),
{
    if s.len() == 0 {
        0
    } else if s.last() == '\n' && i == split_newlines(s.drop_last()).len() {
        s.len() as int
    } else {
        piece_start(s.drop_last(), i)
    }
}

/// The pieces between newlines are pieces of the text; the last one ends it.
proof fn lemma_split_pieces(s: Seq<char>)
    ensures
        forall|i: int|
            0 <= i < split_newlines(s).len() ==> #[trigger] is_piece_at(
                s,
                piece_start(s, i),
                split_newlines(s)[i],
            ),
        piece_start(s, split_newlines(s).len() - 1) + split_newlines(s).last().len() == s.len(),
    decreases s.len(),
{
    lemma_split_newlines_len(s);
    let ps = split_newlines(s);
    if s.len() == 0 {
        assert forall|i: int| 0 <= i < ps.len() implies #[trigger] is_piece_at(
            s,
            piece_start(s, i),
            ps[i],
        ) by {
            assert(s.subrange(0, 0) =~= ps[i]);
        }
    } else {
        let t = s.drop_last();
        lemma_split_pieces(t);
        lemma_split_newlines_len(t);
        let pt = split_newlines(t);
        assert forall|i: int| 0 <= i < ps.len() implies #[trigger] is_piece_at(
            s,
            piece_start(s, i),
            ps[i],
        ) by {
            if s.last() == '\n' {
                if i < pt.len() {
                    assert(is_piece_at(t, piece_start(t, i), pt[i]));
                    let off = piece_start(t, i);
                    assert(s.subrange(off, off + ps[i].len()) =~= ps[i]);
                } else {
                    assert(s.subrange(s.len() as int, s.len() as int) =~= ps[i]);
                }
            } else {
                if i < pt.len() - 1 {
                    assert(is_piece_at(t, piece_start(t, i), pt[i]));
                    let off = piece_start(t, i);
                    assert(s.subrange(off, off + ps[i].len()) =~= ps[i]);
                } else {
                    assert(is_piece_at(t, piece_start(t, i), pt[i]));
                    let off = piece_start(t, i);
                    assert(s.subrange(off, off + ps[i].len()) =~= ps[i]);
                }
            }
        }
    }
}

/// `n` occurs in `s` wherever it occurs in a piece of `s`.
pub proof fn lemma_contains_in_piece(s: Seq<char>, off: int, piece: Seq<char>, n: Seq<char>)
    requires
        0 <= off,
        off + piece.len() <= s.len(),
        s.subrange(off, off + piece.len()) == piece,
        contains(piece, n),
    ensures
        contains(s, n),
{
    let i = choose|i: int| occurs_at(piece, n, i);
    assert(s.subrange(off + i, off + i + n.len()) =~= piece.subrange(i, i + n.len()));
    assert(occurs_at(s, n, off + i));
}

/// `n` occurs in a text wherever it occurs in one of its lines.
pub proof fn lemma_contains_from_line(s: Seq<char>, k: int, n: Seq<char>)
    requires
        0 <= k < lines(s).len(),
        contains(lines(s)[k], n),
    ensures
        contains(s, n),
{
    lemma_split_pieces(s);
    lemma_split_newlines_len(s);
    let p = split_newlines(s);
    let piece = p[k];
    assert(is_piece_at(s, piece_start(s, k), p[k]));
    let off = piece_start(s, k);
    let l = lines(s)[k];
    assert(l.len() <= piece.len() && l =~= piece.subrange(0, l.len() as int));
    assert(s.subrange(off, off + l.len()) =~= l);
    lemma_contains_in_piece(s, off, l, n);
}

/// Every line of a text is free of newlines.
pub proof fn lemma_lines_no_newline_each(s: Seq<char>)
    ensures
        forall|k: int| 0 <= k < lines(s).len() ==> has_no_newline(#[trigger] lines(s)[k]),
{
    assert forall|k: int| 0 <= k < lines(s).len() implies has_no_newline(
        #[trigger] lines(s)[k],
    ) by {
        lemma_split_has_no_newline(s);
        lemma_split_newlines_len(s);
    }
}

proof fn lemma_split_has_no_newline(s: Seq<char>)
    ensures
        forall|k: int|
            0 <= k < split_newlines(s).len() ==> has_no_newline(#[trigger] split_newlines(s)[k]),
    decreases s.len(),
{
    if s.len() > 0 {
        let t = s.drop_last();
        lemma_split_has_no_newline(t);
        lemma_split_newlines_len(t);
        let pt = split_newlines(t);
        if s.last() != '\n' {
            assert(has_no_newline(pt.last().push(s.last()))) by {
                assert(has_no_newline(pt[pt.len() - 1]));
            }
        }
        assert forall|k: int| 0 <= k < split_newlines(s).len() implies has_no_newline(
            #[trigger] split_newlines(s)[k],
        ) by {
            if k < pt.len() - 1 || (s.last() == '\n' && k < pt.len()) {
                assert(split_newlines(s)[k] == pt[k]);
            }
        }
    }
}

/// Occurrences of `n` in the newline-joined lines: without a newline in
/// `n`, each lies inside one line.
pub proof fn lemma_contains_join(m: Seq<Seq<char>>, n: Seq<char>)
    requires
        n.len() > 0,
        has_no_newline(n),
        contains(join_lines(m), n),
    ensures
        exists|j: int| 0 <= j < m.len() && contains(#[trigger] m[j], n),
    decreases m.len(),
{
    if m.len() == 1 {
        assert(contains(m[0], n));
    } else if m.len() > 1 {
        let m2 = m.drop_last();
        let a = join_lines(m2);
        let i = choose|i: int| occurs_at(join_lines(m), n, i);
        let h = join_lines(m);
        assert(h == a + seq!['\n'] + m.last());
        if i + n.len() <= a.len() {
            assert(a.subrange(i, i + n.len()) =~= h.subrange(i, i + n.len()));
            assert(occurs_at(a, n, i));
            lemma_contains_join(m2, n);
            let j = choose|j: int| 0 <= j < m2.len() && contains(#[trigger] m2[j], n);
            assert(m[j] == m2[j]);
        } else if i > a.len() {
            let i2 = i - a.len() - 1;
            assert(m.last().subrange(i2, i2 + n.len()) =~= h.subrange(i, i + n.len()));
            assert(occurs_at(m.last(), n, i2));
            assert(m[m.len() - 1] == m.last());
        } else {
            assert(h.subrange(i, i + n.len())[a.len() - i] == h[a.len() as int]);
            assert(n[a.len() - i] == '\n');
        }
    }
}

/// Every line occurs in the newline-joined text.
pub proof fn lemma_join_contains_line(m: Seq<Seq<char>>, j: int, n: Seq<char>)
    requires
        0 <= j < m.len(),
        contains(m[j], n),
    ensures
        contains(join_lines(m), n),
    decreases m.len(),
{
    if m.len() > 1 {
        let m2 = m.drop_last();
        let a = join_lines(m2);
        let h = join_lines(m);
        assert(h == a + seq!['\n'] + m.last());
        if j < m.len() - 1 {
            assert(m2[j] == m[j]);
            lemma_join_contains_line(m2, j, n);
            assert(h.subrange(0, a.len() as int) =~= a);
            lemma_contains_in_piece(h, 0, a, n);
        } else {
            assert(h.subrange(a.len() as int + 1, h.len() as int) =~= m.last());
            lemma_contains_in_piece(h, a.len() as int + 1, m.last(), n);
        }
    }
}

/// Substrings of the middle part occur in a concatenation.
pub proof fn lemma_contains_concat(a: Seq<char>, x: Seq<char>, b: Seq<char>, n: Seq<char>)
    requires
        contains(x, n),
    ensures
        contains(a + x + b, n),
{
    assert((a + x + b).subrange(a.len() as int, a.len() as int + x.len()) =~= x);
    lemma_contains_in_piece(a + x + b, a.len() as int, x, n);
}

} // verus!

verus! {

// ── facts about trimming ────────────────────────────────────────────────────

proof fn lemma_trim_start_at(s: Seq<char>, i: int)
    requires
        0 <= i <= s.len(),
        forall|k: int| 0 <= k < i ==> is_whitespace(#[trigger] s[k]),
        i == s.len() || !is_whitespace(s[i]),
    ensures
        trim_start(s) == s.skip(i),
    decreases i,
{
    if i == 0 {
        assert(s.skip(0) =~= s);
    } else {
        let t = s.drop_first();
        assert forall|k: int| 0 <= k < i - 1 implies is_whitespace(#[trigger] t[k]) by {
            assert(t[k] == s[k + 1]);
        }
        assert(is_whitespace(s[0]));
        if i < s.len() {
            assert(t[i - 1] == s[i]);
        }
        lemma_trim_start_at(t, i - 1);
        assert(t.skip(i - 1) =~= s.skip(i));
    }
}

proof fn lemma_trim_end_at(s: Seq<char>, j: int)
    requires
        0 <= j <= s.len(),
        forall|k: int| j <= k < s.len() ==> is_whitespace(#[trigger] s[k]),
        j == 0 || !is_whitespace(s[j - 1]),
    ensures
        trim_end(s) == s.take(j),
    decreases s.len() - j,
{
    if j == s.len() {
        assert(s.take(j) =~= s);
    } else {
        let t = s.drop_last();
        assert(is_whitespace(s[s.len() - 1]));
        assert forall|k: int| j <= k < t.len() implies is_whitespace(#[trigger] t[k]) by {
            assert(t[k] == s[k]);
        }
        if j > 0 {
            assert(t[j - 1] == s[j - 1]);
        }
        lemma_trim_end_at(t, j);
        assert(t.take(j) =~= s.take(j));
    }
}

/// A text that is whitespace, then a core that starts and ends with
/// non-whitespace, then whitespace, trims to the core.
pub proof fn lemma_trim_of(s: Seq<char>, i: int, j: int)
    requires
        0 <= i < j <= s.len(),
        forall|k: int| 0 <= k < i ==> is_whitespace(#[trigger] s[k]),
        forall|k: int| j <= k < s.len() ==> is_whitespace(#[trigger] s[k]),
        !is_whitespace(s[i]),
        !is_whitespace(s[j - 1]),
    ensures
        trim(s) == s.subrange(i, j),
{
    lemma_trim_start_at(s, i);
    let t = s.skip(i);
    assert forall|k: int| j - i <= k < t.len() implies is_whitespace(#[trigger] t[k]) by {
        assert(t[k] == s[k + i]);
    }
    assert(t[j - i - 1] == s[j - 1]);
    lemma_trim_end_at(t, j - i);
    assert(t.take(j - i) =~= s.subrange(i, j));
}

proof fn lemma_trim_start_push(y: Seq<char>, c: char)
    ensures
        trim_start(y.push(c)) == if trim_start(y).len() == 0 {
            trim_start(seq![c])
        } else {
            trim_start(y).push(c)
        },
    decreases y.len(),
{
    if y.len() == 0 {
        assert(y.push(c) =~= seq![c]);
    } else if is_whitespace(y[0]) {
        assert(y.push(c).drop_first() =~= y.drop_first().push(c));
        lemma_trim_start_push(y.drop_first(), c);
    }
}

/// Removing a trailing carriage return does not change what a line trims to.
pub proof fn lemma_trim_strip_cr(x: Seq<char>)
    ensures
        trim(strip_cr(x)) == trim(x),
{
    if x.len() > 0 && x.last() == '\r' {
        let y = x.drop_last();
        assert(x =~= y.push('\r'));
        lemma_trim_start_push(y, '\r');
        if trim_start(y).len() == 0 {
            assert(seq!['\r'].drop_first() =~= Seq::<char>::empty());
            assert(trim_start(seq!['\r']) == trim_start(Seq::<char>::empty()));
        } else {
            assert(trim_start(y).push('\r').drop_last() =~= trim_start(y));
        }
    }
}

/// A pattern that starts and ends with non-whitespace occurs in the trimmed
/// text wherever it occurs in the text.
pub proof fn lemma_contains_trim(s: Seq<char>, n: Seq<char>)
    requires
        n.len() > 0,
        !is_whitespace(n[0]),
        !is_whitespace(n.last()),
        contains(s, n),
    ensures
        contains(trim(s), n),
{
    lemma_contains_trim_start(s, n);
    lemma_contains_trim_end(trim_start(s), n);
}

proof fn lemma_contains_trim_start(s: Seq<char>, n: Seq<char>)
    requires
        n.len() > 0,
        !is_whitespace(n[0]),
        contains(s, n),
    ensures
        contains(trim_start(s), n),
    decreases s.len(),
{
    if s.len() > 0 && is_whitespace(s[0]) {
        let i = choose|i: int| occurs_at(s, n, i);
        assert(s.subrange(i, i + n.len())[0] == s[i]);
        assert(i != 0);
        assert(s.drop_first().subrange(i - 1, i - 1 + n.len()) =~= s.subrange(i, i + n.len()));
        assert(occurs_at(s.drop_first(), n, i - 1));
        lemma_contains_trim_start(s.drop_first(), n);
    }
}

proof fn lemma_contains_trim_end(s: Seq<char>, n: Seq<char>)
    requires
        n.len() > 0,
        !is_whitespace(n.last()),
        contains(s, n),
    ensures
        contains(trim_end(s), n),
    decreases s.len(),
{
    if s.len() > 0 && is_whitespace(s.last()) {
        let i = choose|i: int| occurs_at(s, n, i);
        assert(s.subrange(i, i + n.len())[n.len() - 1] == s[i + n.len() - 1]);
        assert(i + n.len() < s.len());
        assert(s.drop_last().subrange(i, i + n.len()) =~= s.subrange(i, i + n.len()));
        assert(occurs_at(s.drop_last(), n, i));
        lemma_contains_trim_end(s.drop_last(), n);
    }
}

/// `trim_end(s)` is a prefix of `s`.
pub proof fn lemma_trim_end_prefix(s: Seq<char>)
    ensures
        trim_end(s).len() <= s.len(),
        trim_end(s) == s.take(trim_end(s).len() as int),
    decreases s.len(),
{
    if s.len() > 0 && is_whitespace(s.last()) {
        lemma_trim_end_prefix(s.drop_last());
        assert(s.drop_last().take(trim_end(s).len() as int) =~= s.take(trim_end(s).len() as int));
    } else {
        assert(s.take(s.len() as int) =~= s);
    }
}

// ── lines of a prefix ───────────────────────────────────────────────────────

/// Where the last line of `s` starts: just after its last newline, 0 if it
/// has none.
pub open spec fn last_line_start(s: Seq<char>) -> int
    decreases s.len(),
{
    if s.len() == 0 {
        0
    } else if s.last() == '\n' {
        s.len() as int
    } else {
        last_line_start(s.drop_last())
    }
}

proof fn lemma_last_line_start(s: Seq<char>)
    ensures
        0 <= last_line_start(s) <= s.len(),
        last_line_start(s) == 0 || s[last_line_start(s) - 1] == '\n',
        has_no_newline(s.skip(last_line_start(s))),
    decreases s.len(),
{
    if s.len() > 0 && s.last() != '\n' {
        let t = s.drop_last();
        lemma_last_line_start(t);
        let i = last_line_start(s);
        assert forall|k: int| 0 <= k < s.skip(i).len() implies #[trigger] s.skip(i)[k] != '\n' by {
            if i + k < t.len() {
                assert(s.skip(i)[k] == t.skip(i)[k]);
            }
        }
        if i > 0 {
            assert(s[i - 1] == t[i - 1]);
        }
    } else if s.len() > 0 {
        assert(s.skip(s.len() as int) =~= Seq::<char>::empty());
    } else {
        assert(s.skip(0) =~= s);
    }
}

/// A line without a newline before a newline and more text.
pub proof fn lemma_lines_prefix_line(l: Seq<char>, y: Seq<char>)
    requires
        has_no_newline(l),
    ensures
        lines(l + seq!['\n'] + y) == seq![strip_cr(l)] + lines(y),
{
    lemma_lines_append(l + seq!['\n'], y);
    lemma_lines_single(l);
}

/// The lines of a prefix of `v`, extended by newline-free `w` and a
/// newline: some of the first lines of `v`, then its last (partial) line
/// followed by `w`.
pub proof fn lemma_lines_of_prefix(v: Seq<char>, j: int, w: Seq<char>) -> (r: (
    Seq<Seq<char>>,
    Seq<char>,
))
    requires
        0 <= j <= v.len(),
        has_no_newline(w),
    ensures
        lines(v.take(j) + w + seq!['\n']) == r.0 + seq![strip_cr(r.1 + w)],
        r.0.len() <= lines(v).len(),
        r.0 == lines(v).take(r.0.len() as int),
        has_no_newline(r.1),
{
    let u = v.take(j);
    lemma_last_line_start(u);
    let t = last_line_start(u);
    let u1 = u.take(t);
    let u2 = u.skip(t);
    assert forall|k: int| 0 <= k < (u2 + w).len() implies #[trigger] (u2 + w)[k] != '\n' by {
        if k < u2.len() {
            assert((u2 + w)[k] == u2[k]);
        } else {
            assert((u2 + w)[k] == w[k - u2.len()]);
        }
    }
    if t == 0 {
        assert(u + w + seq!['\n'] =~= (u2 + w) + seq!['\n']);
        lemma_lines_single(u2 + w);
        assert(lines(u1) =~= Seq::<Seq<char>>::empty()) by {
            assert(u1 =~= Seq::<char>::empty());
        }
        assert(lines(v).take(0) =~= Seq::<Seq<char>>::empty());
        (lines(u1), u2)
    } else {
        assert(u1.last() == '\n');
        assert(u + w + seq!['\n'] =~= u1 + ((u2 + w) + seq!['\n']));
        lemma_lines_append(u1, (u2 + w) + seq!['\n']);
        lemma_lines_single(u2 + w);
        assert(v =~= u1 + v.skip(t));
        lemma_lines_append(u1, v.skip(t));
        assert(lines(v).take(lines(u1).len() as int) =~= lines(u1));
        (lines(u1), u2)
    }
}

} // verus!

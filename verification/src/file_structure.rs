//! Directory indexing and ordering engine.
//!
//! The indexer turns a raw, unordered listing of a directory subtree into a
//! deterministically ordered tree of entries: within every level all
//! directories come strictly before all files, directories are ordered by a
//! numeric-prefix comparator, files by plain name comparison, and each of the
//! two groups is numbered contiguously from 0.

use vstd::prelude::*;

verus! {

/// A raw, unordered node of a directory subtree, as read from the filesystem
/// by the caller: either a file with its display name and fetchable path, or
/// a directory with its unordered children.
pub enum RawEntry {
    File { name: String, path: String },
    Directory { name: String, children: Vec<RawEntry> },
}

/// One ordered node of the indexed tree. `order` is the 0-based position of
/// the entry among the directories (resp. among the files) of its level.
#[derive(Debug, PartialEq)]
pub enum FileEntry {
    File { name: String, path: String, order: Option<usize> },
    Directory { name: String, order: Option<usize>, children: Vec<FileEntry> },
}

/// The characters `char::is_whitespace` recognizes (the Unicode `White_Space`
/// property): the token splitting of the numeric-prefix extractor goes by it.
pub open spec fn is_space(c: char) -> bool {
    c == ' ' || c == '\t' || c == '\n' || c == '\r' || c == '\u{b}' || c == '\u{c}'
        || c == '\u{85}' || c == '\u{a0}' || c == '\u{1680}'
        || ('\u{2000}' <= c && c <= '\u{200a}')
        || c == '\u{2028}' || c == '\u{2029}' || c == '\u{202f}' || c == '\u{205f}'
        || c == '\u{3000}'
}

/// The suffix of `s` that starts at its first non-whitespace character.
pub open spec fn skip_spaces(s: Seq<char>) -> Seq<char>
    decreases s.len(),
{
    if s.len() == 0 {
        s
    } else if is_space(s[0]) {
        skip_spaces(s.drop_first())
    } else {
        s
    }
}

/// The longest whitespace-free prefix of `s`.
pub open spec fn take_nonspace(s: Seq<char>) -> Seq<char>
    decreases s.len(),
{
    if s.len() == 0 || is_space(s[0]) {
        Seq::empty()
    } else {
        seq![s[0]] + take_nonspace(s.drop_first())
    }
}

/// The first whitespace-delimited token of `s` (empty if `s` is all
/// whitespace or empty).
pub open spec fn first_token(s: Seq<char>) -> Seq<char> {
    take_nonspace(skip_spaces(s))
}

pub open spec fn is_digit(c: char) -> bool {
    '0' <= c && c <= '9'
}

pub open spec fn all_digits(s: Seq<char>) -> bool {
    forall|i: int| 0 <= i < s.len() ==> is_digit(#[trigger] s[i])
}

/// Numeric value of a sequence of decimal digits, most significant first.
pub open spec fn digits_val(s: Seq<char>) -> int
    decreases s.len(),
{
    if s.len() == 0 {
        0
    } else {
        digits_val(s.drop_last()) * 10 + (s.last() as int - '0' as int)
    }
}

/// Value of a non-empty, all-digit sequence, if it fits in a `u32`.
pub open spec fn parse_digits(t: Seq<char>) -> Option<u32> {
    if t.len() > 0 && all_digits(t) && digits_val(t) <= u32::MAX {
        Some(digits_val(t) as u32)
    } else {
        None
    }
}

/// What `str::parse::<u32>` accepts: an optional leading `+`, then one or
/// more decimal digits whose value fits in a `u32`.
pub open spec fn parse_u32(s: Seq<char>) -> Option<u32> {
    if s.len() > 0 && s[0] == '+' {
        parse_digits(s.drop_first())
    } else {
        parse_digits(s)
    }
}

/// The numeric prefix of a name: its first whitespace-delimited token, if
/// that token parses fully as a non-negative 32-bit integer.
pub open spec fn num_prefix(s: Seq<char>) -> Option<u32> {
    parse_u32(first_token(s))
}

/// Mathematical view of a `RawEntry`: the same tree with sequences in place
/// of vectors and strings, so that structural identity of two trees is plain
/// equality.
pub enum RawModel {
    File { name: Seq<char>, path: Seq<char> },
    Directory { name: Seq<char>, children: Seq<RawModel> },
}

/// Mathematical view of a `FileEntry`.
pub enum EntryModel {
    File { name: Seq<char>, path: Seq<char>, order: Option<usize> },
    Directory { name: Seq<char>, order: Option<usize>, children: Seq<EntryModel> },
}

pub open spec fn raw_model(e: RawEntry) -> RawModel
    decreases e,
{
    match e {
        RawEntry::File { name, path } => RawModel::File { name: name@, path: path@ },
        RawEntry::Directory { name, children } => RawModel::Directory {
            name: name@,
            children: raws_model(children@),
        },
    }
}

pub open spec fn raws_model(s: Seq<RawEntry>) -> Seq<RawModel>
    decreases s,
{
    if s.len() == 0 {
        Seq::empty()
    } else {
        raws_model(s.drop_last()).push(raw_model(s.last()))
    }
}

pub open spec fn entry_model(e: FileEntry) -> EntryModel
    decreases e,
{
    match e {
        FileEntry::File { name, path, order } => EntryModel::File {
            name: name@,
            path: path@,
            order,
        },
        FileEntry::Directory { name, order, children } => EntryModel::Directory {
            name: name@,
            order,
            children: entries_model(children@),
        },
    }
}

pub open spec fn entries_model(s: Seq<FileEntry>) -> Seq<EntryModel>
    decreases s,
{
    if s.len() == 0 {
        Seq::empty()
    } else {
        entries_model(s.drop_last()).push(entry_model(s.last()))
    }
}

pub proof fn lemma_entries_model_index(s: Seq<FileEntry>)
    ensures
        entries_model(s).len() == s.len(),
        forall|i: int| 0 <= i < s.len() ==> entries_model(s)[i] == entry_model(s[i]),
    decreases s.len(),
{
    if s.len() > 0 {
        lemma_entries_model_index(s.drop_last());
    }
}

/// Name of a model entry.
pub open spec fn m_name(e: EntryModel) -> Seq<char> {
    match e {
        EntryModel::File { name, .. } => name,
        EntryModel::Directory { name, .. } => name,
    }
}

/// Lexicographic comparison of two character sequences by code point, the
/// order `str` comparison gives on the underlying UTF-8 bytes.
pub open spec fn seq_lt(a: Seq<char>, b: Seq<char>) -> bool
    decreases a.len(),
{
    if b.len() == 0 {
        false
    } else if a.len() == 0 {
        true
    } else if a[0] != b[0] {
        (a[0] as u32) < (b[0] as u32)
    } else {
        seq_lt(a.drop_first(), b.drop_first())
    }
}

/// What `str::to_lowercase` returns for a string with these characters: the
/// result depends on the characters alone.
pub uninterp spec fn lower_of(s: Seq<char>) -> Seq<char>;

/// The strict order the directory comparator induces on names: by numeric
/// prefix when both have one, a name with a prefix before one without, and
/// otherwise case-insensitive lexicographic comparison.
pub open spec fn dir_lt(a: Seq<char>, b: Seq<char>) -> bool {
    match (num_prefix(a), num_prefix(b)) {
        (Some(x), Some(y)) => x < y,
        (Some(_), None) => true,
        (None, Some(_)) => false,
        (None, None) => seq_lt(lower_of(a), lower_of(b)),
    }
}

pub open spec fn dir_entry_lt(a: EntryModel, b: EntryModel) -> bool {
    dir_lt(m_name(a), m_name(b))
}

pub open spec fn file_entry_lt(a: EntryModel, b: EntryModel) -> bool {
    seq_lt(m_name(a), m_name(b))
}

/// The directory entries of a level, in their original order.
pub open spec fn dirs_of(s: Seq<EntryModel>) -> Seq<EntryModel>
    decreases s.len(),
{
    if s.len() == 0 {
        Seq::empty()
    } else {
        dirs_of(s.drop_last()) + (if s.last() is Directory {
            seq![s.last()]
        } else {
            Seq::empty()
        })
    }
}

/// The file entries of a level, in their original order.
pub open spec fn files_of(s: Seq<EntryModel>) -> Seq<EntryModel>
    decreases s.len(),
{
    if s.len() == 0 {
        Seq::empty()
    } else {
        files_of(s.drop_last()) + (if s.last() is File {
            seq![s.last()]
        } else {
            Seq::empty()
        })
    }
}

/// Stable insertion of `e` into `s`: `e` goes before the first element it is
/// strictly less than, hence after every element it ties with.
pub open spec fn insert_dir(e: EntryModel, s: Seq<EntryModel>) -> Seq<EntryModel>
    decreases s.len(),
{
    if s.len() == 0 {
        seq![e]
    } else if dir_entry_lt(e, s[0]) {
        seq![e] + s
    } else {
        seq![s[0]] + insert_dir(e, s.drop_first())
    }
}

/// Stable insertion sort of a level's directories by the numeric-prefix
/// comparator.
pub open spec fn sort_dirs(s: Seq<EntryModel>) -> Seq<EntryModel>
    decreases s.len(),
{
    if s.len() == 0 {
        Seq::empty()
    } else {
        insert_dir(s.last(), sort_dirs(s.drop_last()))
    }
}

pub open spec fn insert_file(e: EntryModel, s: Seq<EntryModel>) -> Seq<EntryModel>
    decreases s.len(),
{
    if s.len() == 0 {
        seq![e]
    } else if file_entry_lt(e, s[0]) {
        seq![e] + s
    } else {
        seq![s[0]] + insert_file(e, s.drop_first())
    }
}

/// Stable insertion sort of a level's files by plain name comparison.
pub open spec fn sort_files(s: Seq<EntryModel>) -> Seq<EntryModel>
    decreases s.len(),
{
    if s.len() == 0 {
        Seq::empty()
    } else {
        insert_file(s.last(), sort_files(s.drop_last()))
    }
}

/// The same entry with its 0-based position within its group recorded.
pub open spec fn set_order_m(e: EntryModel, n: int) -> EntryModel {
    match e {
        EntryModel::File { name, path, order } => EntryModel::File {
            name,
            path,
            order: Some(n as usize),
        },
        EntryModel::Directory { name, order, children } => EntryModel::Directory {
            name,
            order: Some(n as usize),
            children,
        },
    }
}

/// Contiguous 0-based numbering of a group.
pub open spec fn number(s: Seq<EntryModel>) -> Seq<EntryModel> {
    Seq::new(s.len(), |i: int| set_order_m(s[i], i))
}

/// One level of the indexed tree: its directories sorted by the
/// numeric-prefix comparator and numbered from 0, then its files sorted by
/// name and numbered from 0.
pub open spec fn arrange(s: Seq<EntryModel>) -> Seq<EntryModel> {
    number(sort_dirs(dirs_of(s))) + number(sort_files(files_of(s)))
}

/// The indexed form of one raw entry: a file keeps its name and path, a
/// directory gets its children indexed in full.
pub open spec fn walk_raw(e: RawModel) -> EntryModel
    decreases e,
{
    match e {
        RawModel::File { name, path } => EntryModel::File { name, path, order: None },
        RawModel::Directory { name, children } => EntryModel::Directory {
            name,
            order: None,
            children: arrange(walk_raws(children)),
        },
    }
}

pub open spec fn walk_raws(s: Seq<RawModel>) -> Seq<EntryModel>
    decreases s,
{
    if s.len() == 0 {
        Seq::empty()
    } else {
        walk_raws(s.drop_last()).push(walk_raw(s.last()))
    }
}

/// What the indexer returns for a raw listing: every level arranged, the
/// whole tree deterministically ordered.
pub open spec fn index_spec(s: Seq<RawModel>) -> Seq<EntryModel> {
    arrange(walk_raws(s))
}

/// Runtime form of `is_space`.
fn is_space_char(c: char) -> (r: bool)
    ensures
        r == is_space(c),
{
    c == ' ' || c == '\t' || c == '\n' || c == '\r' || c == '\u{b}' || c == '\u{c}'
        || c == '\u{85}' || c == '\u{a0}' || c == '\u{1680}'
        || ('\u{2000}' <= c && c <= '\u{200a}')
        || c == '\u{2028}' || c == '\u{2029}' || c == '\u{202f}' || c == '\u{205f}'
        || c == '\u{3000}'
}

proof fn lemma_skip_spaces_at(s: Seq<char>, i: int)
    requires
        0 <= i <= s.len(),
        forall|k: int| 0 <= k < i ==> is_space(s[k]),
        i == s.len() || !is_space(s[i]),
    ensures
        skip_spaces(s) =~= s.skip(i),
    decreases i,
{
    if i == 0 {
        assert(s.skip(0) =~= s);
    } else {
        assert(is_space(s[0]));
        lemma_skip_spaces_at(s.drop_first(), i - 1);
        assert(s.drop_first().skip(i - 1) =~= s.skip(i));
    }
}

proof fn lemma_take_nonspace_at(s: Seq<char>, j: int)
    requires
        0 <= j <= s.len(),
        forall|k: int| 0 <= k < j ==> !is_space(s[k]),
        j == s.len() || is_space(s[j]),
    ensures
        take_nonspace(s) =~= s.take(j),
    decreases j,
{
    if j == 0 {
        assert(s.take(0) =~= Seq::<char>::empty());
    } else {
        assert(!is_space(s[0]));
        lemma_take_nonspace_at(s.drop_first(), j - 1);
        assert(seq![s[0]] + s.drop_first().take(j - 1) =~= s.take(j));
    }
}

proof fn lemma_digits_val_nonneg(s: Seq<char>)
    requires
        all_digits(s),
    ensures
        digits_val(s) >= 0,
    decreases s.len(),
{
    if s.len() > 0 {
        assert(all_digits(s.drop_last())) by {
            assert(forall|k: int| 0 <= k < s.len() - 1 ==> s.drop_last()[k] == s[k]);
        }
        lemma_digits_val_nonneg(s.drop_last());
    }
}

proof fn lemma_digits_val_prefix(s: Seq<char>, m: int)
    requires
        all_digits(s),
        0 <= m <= s.len(),
    ensures
        digits_val(s.take(m)) <= digits_val(s),
    decreases s.len() - m,
{
    if m == s.len() {
        assert(s.take(m) =~= s);
    } else {
        assert(s.take(m + 1).drop_last() =~= s.take(m));
        assert(all_digits(s.take(m))) by {
            assert(forall|k: int| 0 <= k < m ==> s.take(m)[k] == s[k]);
        }
        lemma_digits_val_nonneg(s.take(m));
        assert(digits_val(s.take(m + 1)) == digits_val(s.take(m)) * 10 + (s[m] as int
            - '0' as int));
        lemma_digits_val_prefix(s, m + 1);
    }
}

/// Relies on `str::to_lowercase`: the lowercase equivalent of the string,
/// a function of its characters alone.
#[verifier::external_body]
fn lowercase(s: &str) -> (r: String)
    ensures
        r@ == lower_of(s@),
{
    s.to_lowercase()
}

proof fn lemma_seq_lt_common_prefix(a: Seq<char>, b: Seq<char>, i: int)
    requires
        0 <= i <= a.len(),
        i <= b.len(),
        forall|k: int| 0 <= k < i ==> a[k] == b[k],
    ensures
        seq_lt(a, b) == seq_lt(a.skip(i), b.skip(i)),
    decreases i,
{
    if i == 0 {
        assert(a.skip(0) =~= a);
        assert(b.skip(0) =~= b);
    } else {
        assert(a[0] == b[0]);
        lemma_seq_lt_common_prefix(a.drop_first(), b.drop_first(), i - 1);
        assert(a.drop_first().skip(i - 1) =~= a.skip(i));
        assert(b.drop_first().skip(i - 1) =~= b.skip(i));
    }
}

/// Lexicographic comparison of two strings, character by character.
fn str_lt(a: &str, b: &str) -> (r: bool)
    ensures
        r == seq_lt(a@, b@),
{
    let na = a.unicode_len();
    let nb = b.unicode_len();
    let mut i: usize = 0;
    loop
        invariant
            i <= na,
            i <= nb,
            na == a@.len(),
            nb == b@.len(),
            forall|k: int| 0 <= k < i ==> a@[k] == b@[k],
        decreases na - i,
    {
        proof {
            lemma_seq_lt_common_prefix(a@, b@, i as int);
        }
        if i == nb {
            return false;
        }
        if i == na {
            return true;
        }
        let ca = a.get_char(i);
        let cb = b.get_char(i);
        if ca != cb {
            return (ca as u32) < (cb as u32);
        }
        i = i + 1;
    }
}

/// Extracts the numeric prefix of a name: the first whitespace-delimited
/// token, if it parses fully as a non-negative 32-bit integer.
pub fn extract_number_prefix(name: &str) -> (r: Option<u32>)
    ensures
        r == num_prefix(name@),
{
    let n = name.unicode_len();
    // Skip leading whitespace.
    let mut i: usize = 0;
    while i < n && is_space_char(name.get_char(i))
        invariant
            0 <= i <= n,
            n == name@.len(),
            forall|k: int| 0 <= k < i ==> is_space(name@[k]),
        decreases n - i,
    {
        i = i + 1;
    }
    proof {
        lemma_skip_spaces_at(name@, i as int);
    }
    // Find the end of the first token.
    let mut j: usize = i;
    while j < n && !is_space_char(name.get_char(j))
        invariant
            i <= j <= n,
            n == name@.len(),
            forall|k: int| i <= k < j ==> !is_space(name@[k]),
        decreases n - j,
    {
        j = j + 1;
    }
    let ghost t = name@.subrange(i as int, j as int);
    proof {
        lemma_take_nonspace_at(name@.skip(i as int), j - i);
        assert(name@.skip(i as int).take(j - i) =~= t);
        assert(first_token(name@) == t);
    }
    if j == i {
        // Empty token: all whitespace or an empty name.
        return None;
    }
    // An optional leading plus sign.
    let start: usize = if name.get_char(i) == '+' {
        i + 1
    } else {
        i
    };
    let ghost d = name@.subrange(start as int, j as int);
    proof {
        assert(t[0] == name@[i as int]);
        if name@[i as int] == '+' {
            assert(t.drop_first() =~= d);
        } else {
            assert(t =~= d);
        }
        assert(parse_u32(t) == parse_digits(d));
    }
    if start == j {
        // The token is a bare plus sign.
        return None;
    }
    // Parse the digits, most significant first.
    let mut val: u64 = 0;
    let mut k: usize = start;
    while k < j
        invariant
            start <= k <= j <= n,
            n == name@.len(),
            start < j,
            d == name@.subrange(start as int, j as int),
            num_prefix(name@) == parse_digits(d),
            all_digits(d.take(k - start)),
            val == digits_val(d.take(k - start)),
            val <= u32::MAX,
        decreases j - k,
    {
        let c = name.get_char(k);
        if !(c >= '0' && c <= '9') {
            proof {
                assert(!all_digits(d)) by {
                    assert(!is_digit(d[k - start]));
                }
            }
            return None;
        }
        let dig: u64 = (c as u32) as u64 - ('0' as u32) as u64;
        proof {
            assert(d.take(k - start + 1).drop_last() =~= d.take(k - start));
            assert(forall|q: int| 0 <= q < k - start + 1 ==> d.take(k - start + 1)[q] == d[q]);
        }
        val = val * 10 + dig;
        k = k + 1;
        if val > 0xffff_ffff {
            proof {
                assert(all_digits(d.take(k - start)));
                if all_digits(d) {
                    lemma_digits_val_prefix(d, k - start);
                    assert(digits_val(d) > u32::MAX);
                }
            }
            return None;
        }
    }
    proof {
        assert(d.take(j - start) =~= d);
    }
    Some(val as u32)
}

/// The display name of an entry.
fn entry_name_of(e: &FileEntry) -> (r: &String)
    ensures
        r@ == m_name(entry_model(*e)),
{
    match e {
        FileEntry::File { name, .. } => name,
        FileEntry::Directory { name, .. } => name,
    }
}

/// The directory comparator: decides whether `a` sorts strictly before `b`.
fn dir_entry_before(a: &FileEntry, b: &FileEntry) -> (r: bool)
    ensures
        r == dir_entry_lt(entry_model(*a), entry_model(*b)),
{
    let a_name = entry_name_of(a);
    let b_name = entry_name_of(b);
    match (extract_number_prefix(a_name.as_str()), extract_number_prefix(b_name.as_str())) {
        (Some(x), Some(y)) => x < y,
        (Some(_), None) => true,
        (None, Some(_)) => false,
        (None, None) => {
            let la = lowercase(a_name.as_str());
            let lb = lowercase(b_name.as_str());
            str_lt(la.as_str(), lb.as_str())
        },
    }
}

/// The file comparator: plain case-sensitive name comparison.
fn file_entry_before(a: &FileEntry, b: &FileEntry) -> (r: bool)
    ensures
        r == file_entry_lt(entry_model(*a), entry_model(*b)),
{
    str_lt(entry_name_of(a).as_str(), entry_name_of(b).as_str())
}

proof fn lemma_entries_model_push(s: Seq<FileEntry>, e: FileEntry)
    ensures
        entries_model(s.push(e)) == entries_model(s).push(entry_model(e)),
{
    assert(s.push(e).drop_last() =~= s);
    assert(s.push(e).last() == e);
}

proof fn lemma_entries_model_take_step(s: Seq<FileEntry>, i: int)
    requires
        0 <= i < s.len(),
    ensures
        entries_model(s.take(i + 1)) == entries_model(s.take(i)).push(entry_model(s[i])),
{
    assert(s.take(i + 1).drop_last() =~= s.take(i));
    assert(s.take(i + 1).last() == s[i]);
}

proof fn lemma_insert_dir_at(e: EntryModel, s: Seq<EntryModel>, i: int)
    requires
        0 <= i <= s.len(),
        forall|k: int| 0 <= k < i ==> !dir_entry_lt(e, s[k]),
        i == s.len() || dir_entry_lt(e, s[i]),
    ensures
        insert_dir(e, s) == s.take(i) + seq![e] + s.skip(i),
    decreases i,
{
    if i == 0 {
        assert(insert_dir(e, s) =~= s.take(0) + seq![e] + s.skip(0));
    } else {
        lemma_insert_dir_at(e, s.drop_first(), i - 1);
        assert(seq![s[0]] + (s.drop_first().take(i - 1) + seq![e] + s.drop_first().skip(i - 1))
            =~= s.take(i) + seq![e] + s.skip(i));
    }
}

proof fn lemma_insert_file_at(e: EntryModel, s: Seq<EntryModel>, i: int)
    requires
        0 <= i <= s.len(),
        forall|k: int| 0 <= k < i ==> !file_entry_lt(e, s[k]),
        i == s.len() || file_entry_lt(e, s[i]),
    ensures
        insert_file(e, s) == s.take(i) + seq![e] + s.skip(i),
    decreases i,
{
    if i == 0 {
        assert(insert_file(e, s) =~= s.take(0) + seq![e] + s.skip(0));
    } else {
        lemma_insert_file_at(e, s.drop_first(), i - 1);
        assert(seq![s[0]] + (s.drop_first().take(i - 1) + seq![e] + s.drop_first().skip(i - 1))
            =~= s.take(i) + seq![e] + s.skip(i));
    }
}

/// Inserts `e` into the already sorted `v` at its stable position.
fn insert_dir_entry(v: &mut Vec<FileEntry>, e: FileEntry)
    ensures
        entries_model(final(v)@) == insert_dir(entry_model(e), entries_model(old(v)@)),
        final(v)@.len() == old(v)@.len() + 1,
{
    let ghost s = entries_model(v@);
    let mut i: usize = 0;
    while i < v.len() && !dir_entry_before(&e, &v[i])
        invariant
            0 <= i <= v.len(),
            v@ == old(v)@,
            s == entries_model(v@),
            forall|k: int| 0 <= k < i ==> !dir_entry_lt(entry_model(e), entry_model(v@[k])),
        decreases v.len() - i,
    {
        i = i + 1;
    }
    proof {
        lemma_entries_model_index(v@);
        lemma_insert_dir_at(entry_model(e), s, i as int);
    }
    v.insert(i, e);
    proof {
        lemma_entries_model_index(v@);
        assert(entries_model(v@) =~= s.take(i as int) + seq![entry_model(e)] + s.skip(i as int));
    }
}

fn insert_file_entry(v: &mut Vec<FileEntry>, e: FileEntry)
    ensures
        entries_model(final(v)@) == insert_file(entry_model(e), entries_model(old(v)@)),
        final(v)@.len() == old(v)@.len() + 1,
{
    let ghost s = entries_model(v@);
    let mut i: usize = 0;
    while i < v.len() && !file_entry_before(&e, &v[i])
        invariant
            0 <= i <= v.len(),
            v@ == old(v)@,
            s == entries_model(v@),
            forall|k: int| 0 <= k < i ==> !file_entry_lt(entry_model(e), entry_model(v@[k])),
        decreases v.len() - i,
    {
        i = i + 1;
    }
    proof {
        lemma_entries_model_index(v@);
        lemma_insert_file_at(entry_model(e), s, i as int);
    }
    v.insert(i, e);
    proof {
        lemma_entries_model_index(v@);
        assert(entries_model(v@) =~= s.take(i as int) + seq![entry_model(e)] + s.skip(i as int));
    }
}

/// Stable insertion sort of a level's directories.
fn sort_dir_entries(v: Vec<FileEntry>) -> (r: Vec<FileEntry>)
    ensures
        entries_model(r@) == sort_dirs(entries_model(v@)),
{
    let ghost v0 = v@;
    let mut rem = v;
    let mut out: Vec<FileEntry> = Vec::new();
    while rem.len() > 0
        invariant
            out.len() <= v0.len(),
            rem@ == v0.skip(out.len() as int),
            entries_model(out@) == sort_dirs(entries_model(v0.take(out.len() as int))),
        decreases rem.len(),
    {
        let ghost i = out.len() as int;
        let e = rem.remove(0);
        proof {
            assert(e == v0[i]);
            assert(v0.skip(i).remove(0) =~= v0.skip(i + 1));
            lemma_entries_model_take_step(v0, i);
        }
        insert_dir_entry(&mut out, e);
        proof {
            assert(entries_model(v0.take(i + 1)).drop_last() =~= entries_model(v0.take(i)));
        }
    }
    proof {
        assert(v0.take(v0.len() as int) =~= v0);
    }
    out
}

/// Stable insertion sort of a level's files.
fn sort_file_entries(v: Vec<FileEntry>) -> (r: Vec<FileEntry>)
    ensures
        entries_model(r@) == sort_files(entries_model(v@)),
{
    let ghost v0 = v@;
    let mut rem = v;
    let mut out: Vec<FileEntry> = Vec::new();
    while rem.len() > 0
        invariant
            out.len() <= v0.len(),
            rem@ == v0.skip(out.len() as int),
            entries_model(out@) == sort_files(entries_model(v0.take(out.len() as int))),
        decreases rem.len(),
    {
        let ghost i = out.len() as int;
        let e = rem.remove(0);
        proof {
            assert(e == v0[i]);
            assert(v0.skip(i).remove(0) =~= v0.skip(i + 1));
            lemma_entries_model_take_step(v0, i);
        }
        insert_file_entry(&mut out, e);
        proof {
            assert(entries_model(v0.take(i + 1)).drop_last() =~= entries_model(v0.take(i)));
        }
    }
    proof {
        assert(v0.take(v0.len() as int) =~= v0);
    }
    out
}

fn is_dir_entry(e: &FileEntry) -> (r: bool)
    ensures
        r == (entry_model(*e) is Directory),
{
    match e {
        FileEntry::Directory { .. } => true,
        FileEntry::File { .. } => false,
    }
}

/// Splits a level into its directories and its files, keeping the original
/// order within each group.
fn partition_entries(v: Vec<FileEntry>) -> (r: (Vec<FileEntry>, Vec<FileEntry>))
    ensures
        entries_model(r.0@) == dirs_of(entries_model(v@)),
        entries_model(r.1@) == files_of(entries_model(v@)),
{
    let ghost v0 = v@;
    let mut rem = v;
    let total: usize = rem.len();
    let mut dirs: Vec<FileEntry> = Vec::new();
    let mut files: Vec<FileEntry> = Vec::new();
    let mut i: usize = 0;
    while rem.len() > 0
        invariant
            i <= v0.len(),
            v0.len() == total as int,
            rem@ == v0.skip(i as int),
            entries_model(dirs@) == dirs_of(entries_model(v0.take(i as int))),
            entries_model(files@) == files_of(entries_model(v0.take(i as int))),
        decreases rem.len(),
    {
        let e = rem.remove(0);
        proof {
            assert(e == v0[i as int]);
            assert(v0.skip(i as int).remove(0) =~= v0.skip(i + 1));
            lemma_entries_model_take_step(v0, i as int);
            assert(entries_model(v0.take(i + 1)).drop_last() =~= entries_model(v0.take(i as int)));
            lemma_entries_model_push(dirs@, e);
            lemma_entries_model_push(files@, e);
        }
        if is_dir_entry(&e) {
            dirs.push(e);
        } else {
            files.push(e);
        }
        i = i + 1;
    }
    proof {
        assert(v0.take(v0.len() as int) =~= v0);
    }
    (dirs, files)
}

/// Records `n` as the entry's position within its group.
fn set_order_entry(e: FileEntry, n: usize) -> (r: FileEntry)
    ensures
        entry_model(r) == set_order_m(entry_model(e), n as int),
{
    match e {
        FileEntry::File { name, path, order: _ } => FileEntry::File { name, path, order: Some(n) },
        FileEntry::Directory { name, order: _, children } => FileEntry::Directory {
            name,
            order: Some(n),
            children,
        },
    }
}

proof fn lemma_entries_model_concat(a: Seq<FileEntry>, b: Seq<FileEntry>)
    ensures
        entries_model(a + b) == entries_model(a) + entries_model(b),
{
    lemma_entries_model_index(a + b);
    lemma_entries_model_index(a);
    lemma_entries_model_index(b);
    assert(entries_model(a + b) =~= entries_model(a) + entries_model(b));
}

proof fn lemma_raws_model_take_step(s: Seq<RawEntry>, i: int)
    requires
        0 <= i < s.len(),
    ensures
        raws_model(s.take(i + 1)) == raws_model(s.take(i)).push(raw_model(s[i])),
{
    assert(s.take(i + 1).drop_last() =~= s.take(i));
    assert(s.take(i + 1).last() == s[i]);
}

/// Numbers a sorted group contiguously from 0.
fn number_entries(v: Vec<FileEntry>) -> (r: Vec<FileEntry>)
    ensures
        entries_model(r@) == number(entries_model(v@)),
{
    let ghost v0 = v@;
    let mut rem = v;
    let mut out: Vec<FileEntry> = Vec::new();
    while rem.len() > 0
        invariant
            out.len() <= v0.len(),
            rem@ == v0.skip(out.len() as int),
            entries_model(out@).len() == out.len(),
            forall|k: int|
                0 <= k < out.len() ==> entries_model(out@)[k] == set_order_m(
                    entry_model(v0[k]),
                    k,
                ),
        decreases rem.len(),
    {
        let ghost i = out.len() as int;
        let e = rem.remove(0);
        let n = out.len();
        proof {
            assert(e == v0[i]);
            assert(v0.skip(i).remove(0) =~= v0.skip(i + 1));
        }
        let f = set_order_entry(e, n);
        proof {
            lemma_entries_model_push(out@, f);
        }
        out.push(f);
    }
    proof {
        lemma_entries_model_index(v0);
        assert(entries_model(out@) =~= number(entries_model(v0)));
    }
    out
}

/// The indexed form of one raw entry; directories get their whole subtree
/// indexed.
fn build_entry(e: &RawEntry) -> (r: FileEntry)
    ensures
        entry_model(r) == walk_raw(raw_model(*e)),
    decreases *e,
{
    match e {
        RawEntry::File { name, path } => FileEntry::File {
            name: name.clone(),
            path: path.clone(),
            order: None,
        },
        RawEntry::Directory { name, children } => {
            let kids = generate_file_structure(children);
            FileEntry::Directory { name: name.clone(), order: None, children: kids }
        },
    }
}

/// Turns a raw directory listing into the ordered tree: within every level
/// all directories come strictly before all files, directories are sorted by
/// the numeric-prefix comparator, files by plain name comparison, and each
/// group is numbered contiguously from 0. The whole result is a function of
/// the raw tree's structure alone.
pub fn generate_file_structure(entries: &Vec<RawEntry>) -> (r: Vec<FileEntry>)
    ensures
        entries_model(r@) == index_spec(raws_model(entries@)),
    decreases *entries,
{
    let ghost e0 = entries@;
    let mut conv: Vec<FileEntry> = Vec::new();
    let mut i: usize = 0;
    while i < entries.len()
        invariant
            i <= e0.len(),
            entries@ == e0,
            entries_model(conv@) == walk_raws(raws_model(e0.take(i as int))),
        decreases e0.len() - i,
    {
        let fe = build_entry(&entries[i]);
        proof {
            lemma_raws_model_take_step(e0, i as int);
            assert(raws_model(e0.take(i + 1)).drop_last() =~= raws_model(e0.take(i as int)));
            lemma_entries_model_push(conv@, fe);
        }
        conv.push(fe);
        i = i + 1;
    }
    proof {
        assert(e0.take(e0.len() as int) =~= e0);
    }
    let (dirs, files) = partition_entries(conv);
    let dirs_sorted = sort_dir_entries(dirs);
    let files_sorted = sort_file_entries(files);
    let mut out = number_entries(dirs_sorted);
    let mut files_numbered = number_entries(files_sorted);
    proof {
        lemma_entries_model_concat(out@, files_numbered@);
    }
    out.append(&mut files_numbered);
    out
}

/// The recorded position of an entry.
pub open spec fn order_of(e: EntryModel) -> Option<usize> {
    match e {
        EntryModel::File { order, .. } => order,
        EntryModel::Directory { order, .. } => order,
    }
}

/// One level is well ordered with `nd` directories: all directories come
/// strictly before all files, and each group is numbered contiguously from 0.
pub open spec fn level_ordered(s: Seq<EntryModel>, nd: int) -> bool {
    &&& 0 <= nd <= s.len()
    &&& forall|i: int|
        0 <= i < nd ==> (#[trigger] s[i]) is Directory && order_of(s[i]) == Some(i as usize)
    &&& forall|i: int|
        nd <= i < s.len() ==> (#[trigger] s[i]) is File && order_of(s[i]) == Some(
            (i - nd) as usize,
        )
}

/// Every level of the tree below this entry is well ordered.
pub open spec fn entry_tree_ordered(e: EntryModel) -> bool
    decreases e,
{
    match e {
        EntryModel::File { .. } => true,
        EntryModel::Directory { children, .. } => tree_ordered(children),
    }
}

/// Every level of this tree is well ordered.
pub open spec fn tree_ordered(s: Seq<EntryModel>) -> bool
    decreases s,
{
    &&& exists|nd: int| level_ordered(s, nd)
    &&& forall|i: int| 0 <= i < s.len() ==> entry_tree_ordered(#[trigger] s[i])
}

proof fn lemma_insert_dir_elems(e: EntryModel, s: Seq<EntryModel>)
    ensures
        insert_dir(e, s).len() == s.len() + 1,
        forall|j: int|
            0 <= j < insert_dir(e, s).len() ==> (#[trigger] insert_dir(e, s)[j] == e
                || exists|k: int| 0 <= k < s.len() && s[k] == insert_dir(e, s)[j]),
    decreases s.len(),
{
    if s.len() == 0 {
    } else if dir_entry_lt(e, s[0]) {
    } else {
        lemma_insert_dir_elems(e, s.drop_first());
        assert forall|j: int| 0 <= j < insert_dir(e, s).len() implies (#[trigger] insert_dir(
            e,
            s,
        )[j] == e || exists|k: int| 0 <= k < s.len() && s[k] == insert_dir(e, s)[j]) by {
            if j == 0 {
                assert(s[0] == insert_dir(e, s)[0]);
            } else {
                let t = insert_dir(e, s.drop_first());
                assert(insert_dir(e, s)[j] == t[j - 1]);
                if t[j - 1] != e {
                    let k = choose|k: int|
                        0 <= k < s.drop_first().len() && s.drop_first()[k] == t[j - 1];
                    assert(s[k + 1] == t[j - 1]);
                }
            }
        }
    }
}

proof fn lemma_insert_file_elems(e: EntryModel, s: Seq<EntryModel>)
    ensures
        insert_file(e, s).len() == s.len() + 1,
        forall|j: int|
            0 <= j < insert_file(e, s).len() ==> (#[trigger] insert_file(e, s)[j] == e
                || exists|k: int| 0 <= k < s.len() && s[k] == insert_file(e, s)[j]),
    decreases s.len(),
{
    if s.len() == 0 {
    } else if file_entry_lt(e, s[0]) {
    } else {
        lemma_insert_file_elems(e, s.drop_first());
        assert forall|j: int| 0 <= j < insert_file(e, s).len() implies (#[trigger] insert_file(
            e,
            s,
        )[j] == e || exists|k: int| 0 <= k < s.len() && s[k] == insert_file(e, s)[j]) by {
            if j == 0 {
                assert(s[0] == insert_file(e, s)[0]);
            } else {
                let t = insert_file(e, s.drop_first());
                assert(insert_file(e, s)[j] == t[j - 1]);
                if t[j - 1] != e {
                    let k = choose|k: int|
                        0 <= k < s.drop_first().len() && s.drop_first()[k] == t[j - 1];
                    assert(s[k + 1] == t[j - 1]);
                }
            }
        }
    }
}

proof fn lemma_sort_dirs_elems(s: Seq<EntryModel>)
    ensures
        sort_dirs(s).len() == s.len(),
        forall|j: int|
            0 <= j < s.len() ==> exists|k: int| 0 <= k < s.len() && s[k] == #[trigger] sort_dirs(
                s,
            )[j],
    decreases s.len(),
{
    if s.len() > 0 {
        lemma_sort_dirs_elems(s.drop_last());
        lemma_insert_dir_elems(s.last(), sort_dirs(s.drop_last()));
        assert forall|j: int| 0 <= j < s.len() implies exists|k: int|
            0 <= k < s.len() && s[k] == #[trigger] sort_dirs(s)[j] by {
            let x = sort_dirs(s)[j];
            if x == s.last() {
                assert(s[s.len() - 1] == x);
            } else {
                let k1 = choose|k1: int|
                    0 <= k1 < sort_dirs(s.drop_last()).len() && sort_dirs(s.drop_last())[k1] == x;
                let k2 = choose|k2: int|
                    0 <= k2 < s.drop_last().len() && s.drop_last()[k2] == sort_dirs(
                        s.drop_last(),
                    )[k1];
                assert(s[k2] == x);
            }
        }
    }
}

proof fn lemma_sort_files_elems(s: Seq<EntryModel>)
    ensures
        sort_files(s).len() == s.len(),
        forall|j: int|
            0 <= j < s.len() ==> exists|k: int| 0 <= k < s.len() && s[k] == #[trigger] sort_files(
                s,
            )[j],
    decreases s.len(),
{
    if s.len() > 0 {
        lemma_sort_files_elems(s.drop_last());
        lemma_insert_file_elems(s.last(), sort_files(s.drop_last()));
        assert forall|j: int| 0 <= j < s.len() implies exists|k: int|
            0 <= k < s.len() && s[k] == #[trigger] sort_files(s)[j] by {
            let x = sort_files(s)[j];
            if x == s.last() {
                assert(s[s.len() - 1] == x);
            } else {
                let k1 = choose|k1: int|
                    0 <= k1 < sort_files(s.drop_last()).len() && sort_files(s.drop_last())[k1]
                        == x;
                let k2 = choose|k2: int|
                    0 <= k2 < s.drop_last().len() && s.drop_last()[k2] == sort_files(
                        s.drop_last(),
                    )[k1];
                assert(s[k2] == x);
            }
        }
    }
}

proof fn lemma_dirs_of_elems(s: Seq<EntryModel>)
    ensures
        forall|j: int|
            0 <= j < dirs_of(s).len() ==> (#[trigger] dirs_of(s)[j]) is Directory && exists|k: int|
                0 <= k < s.len() && s[k] == dirs_of(s)[j],
    decreases s.len(),
{
    if s.len() > 0 {
        lemma_dirs_of_elems(s.drop_last());
        assert forall|j: int| 0 <= j < dirs_of(s).len() implies (#[trigger] dirs_of(
            s,
        )[j]) is Directory && exists|k: int| 0 <= k < s.len() && s[k] == dirs_of(s)[j] by {
            if j < dirs_of(s.drop_last()).len() {
                assert(dirs_of(s)[j] == dirs_of(s.drop_last())[j]);
                let k = choose|k: int|
                    0 <= k < s.drop_last().len() && s.drop_last()[k] == dirs_of(s.drop_last())[j];
                assert(s[k] == dirs_of(s)[j]);
            } else {
                assert(dirs_of(s)[j] == s.last());
                assert(s[s.len() - 1] == dirs_of(s)[j]);
            }
        }
    }
}

proof fn lemma_files_of_elems(s: Seq<EntryModel>)
    ensures
        forall|j: int|
            0 <= j < files_of(s).len() ==> (#[trigger] files_of(s)[j]) is File && exists|k: int|
                0 <= k < s.len() && s[k] == files_of(s)[j],
    decreases s.len(),
{
    if s.len() > 0 {
        lemma_files_of_elems(s.drop_last());
        assert forall|j: int| 0 <= j < files_of(s).len() implies (#[trigger] files_of(
            s,
        )[j]) is File && exists|k: int| 0 <= k < s.len() && s[k] == files_of(s)[j] by {
            if j < files_of(s.drop_last()).len() {
                assert(files_of(s)[j] == files_of(s.drop_last())[j]);
                let k = choose|k: int|
                    0 <= k < s.drop_last().len() && s.drop_last()[k] == files_of(s.drop_last())[j];
                assert(s[k] == files_of(s)[j]);
            } else {
                assert(files_of(s)[j] == s.last());
                assert(s[s.len() - 1] == files_of(s)[j]);
            }
        }
    }
}

/// Within every `children` sequence that indexing produces, all directories
/// come strictly before all files, each of the two groups is numbered
/// contiguously from 0, and the same holds in every subtree.
pub proof fn lemma_index_tree_ordered(s: Seq<RawModel>)
    ensures
        tree_ordered(index_spec(s)),
    decreases s,
{
    let w = walk_raws(s);
    let sd = sort_dirs(dirs_of(w));
    let sf = sort_files(files_of(w));
    let nd = sd.len() as int;
    lemma_dirs_of_elems(w);
    lemma_files_of_elems(w);
    lemma_sort_dirs_elems(dirs_of(w));
    lemma_sort_files_elems(files_of(w));
    assert forall|i: int| 0 <= i < s.len() implies entry_tree_ordered(walk_raw(
        #[trigger] s[i],
    )) by {
        lemma_walk_raw_ordered(s[i]);
    }
    assert forall|i: int| 0 <= i < w.len() implies entry_tree_ordered(#[trigger] w[i]) by {
        lemma_walk_raws_index(s);
    }
    let out = index_spec(s);
    assert forall|i: int| 0 <= i < nd implies (#[trigger] out[i]) is Directory && order_of(out[i])
        == Some(i as usize) && entry_tree_ordered(out[i]) by {
        assert(out[i] == set_order_m(sd[i], i));
        let k1 = choose|k1: int| 0 <= k1 < dirs_of(w).len() && dirs_of(w)[k1] == sd[i];
        let k2 = choose|k2: int| 0 <= k2 < w.len() && w[k2] == dirs_of(w)[k1];
        assert(entry_tree_ordered(w[k2]));
    }
    assert forall|i: int| nd <= i < out.len() implies (#[trigger] out[i]) is File && order_of(
        out[i],
    ) == Some((i - nd) as usize) && entry_tree_ordered(out[i]) by {
        assert(out[i] == number(sf)[i - nd]);
        assert(out[i] == set_order_m(sf[i - nd], i - nd));
        let k1 = choose|k1: int| 0 <= k1 < files_of(w).len() && files_of(w)[k1] == sf[i - nd];
        let k2 = choose|k2: int| 0 <= k2 < w.len() && w[k2] == files_of(w)[k1];
        assert(entry_tree_ordered(w[k2]));
    }
    assert(level_ordered(out, nd));
}

proof fn lemma_walk_raws_index(s: Seq<RawModel>)
    ensures
        walk_raws(s).len() == s.len(),
        forall|i: int| 0 <= i < s.len() ==> walk_raws(s)[i] == walk_raw(s[i]),
    decreases s.len(),
{
    if s.len() > 0 {
        lemma_walk_raws_index(s.drop_last());
    }
}

proof fn lemma_walk_raw_ordered(e: RawModel)
    ensures
        entry_tree_ordered(walk_raw(e)),
    decreases e,
{
    match e {
        RawModel::File { .. } => {
        },
        RawModel::Directory { children, .. } => {
            lemma_index_tree_ordered(children);
        },
    }
}

/// No sequence sorts strictly before itself.
proof fn lemma_seq_lt_irrefl(a: Seq<char>)
    ensures
        !seq_lt(a, a),
    decreases a.len(),
{
    if a.len() > 0 {
        lemma_seq_lt_irrefl(a.drop_first());
    }
}

proof fn lemma_seq_lt_trans(a: Seq<char>, b: Seq<char>, c: Seq<char>)
    requires
        seq_lt(a, b),
        seq_lt(b, c),
    ensures
        seq_lt(a, c),
    decreases a.len(),
{
    if a.len() > 0 && b.len() > 0 && c.len() > 0 && a[0] == b[0] && b[0] == c[0] {
        lemma_seq_lt_trans(a.drop_first(), b.drop_first(), c.drop_first());
    }
}

proof fn lemma_dir_entry_lt_irrefl(x: EntryModel)
    ensures
        !dir_entry_lt(x, x),
{
    lemma_seq_lt_irrefl(lower_of(m_name(x)));
}

proof fn lemma_dir_entry_lt_trans(x: EntryModel, y: EntryModel, z: EntryModel)
    requires
        dir_entry_lt(x, y),
        dir_entry_lt(y, z),
    ensures
        dir_entry_lt(x, z),
{
    if num_prefix(m_name(x)) is None && num_prefix(m_name(z)) is None {
        lemma_seq_lt_trans(lower_of(m_name(x)), lower_of(m_name(y)), lower_of(m_name(z)));
    }
}

proof fn lemma_file_entry_lt_irrefl(x: EntryModel)
    ensures
        !file_entry_lt(x, x),
{
    lemma_seq_lt_irrefl(m_name(x));
}

proof fn lemma_file_entry_lt_trans(x: EntryModel, y: EntryModel, z: EntryModel)
    requires
        file_entry_lt(x, y),
        file_entry_lt(y, z),
    ensures
        file_entry_lt(x, z),
{
    lemma_seq_lt_trans(m_name(x), m_name(y), m_name(z));
}

/// No entry of the group sorts strictly before an entry preceding it.
pub open spec fn dirs_sorted(s: Seq<EntryModel>) -> bool {
    forall|i: int, j: int| 0 <= i < j < s.len() ==> !dir_entry_lt(s[j], s[i])
}

pub open spec fn files_sorted(s: Seq<EntryModel>) -> bool {
    forall|i: int, j: int| 0 <= i < j < s.len() ==> !file_entry_lt(s[j], s[i])
}

proof fn lemma_insert_dir_sorted(e: EntryModel, s: Seq<EntryModel>)
    requires
        dirs_sorted(s),
    ensures
        dirs_sorted(insert_dir(e, s)),
    decreases s.len(),
{
    if s.len() == 0 {
    } else if dir_entry_lt(e, s[0]) {
        let r = insert_dir(e, s);
        assert forall|i: int, j: int| 0 <= i < j < r.len() implies !dir_entry_lt(r[j], r[i]) by {
            if i == 0 {
                assert(r[j] == s[j - 1]);
                if dir_entry_lt(s[j - 1], e) {
                    lemma_dir_entry_lt_trans(s[j - 1], e, s[0]);
                    if j - 1 == 0 {
                        lemma_dir_entry_lt_irrefl(s[0]);
                    }
                }
            } else {
                assert(r[i] == s[i - 1]);
                assert(r[j] == s[j - 1]);
            }
        }
    } else {
        lemma_insert_dir_sorted(e, s.drop_first());
        lemma_insert_dir_elems(e, s.drop_first());
        let t = insert_dir(e, s.drop_first());
        let r = insert_dir(e, s);
        assert forall|i: int, j: int| 0 <= i < j < r.len() implies !dir_entry_lt(r[j], r[i]) by {
            if i == 0 {
                assert(r[j] == t[j - 1]);
                if t[j - 1] != e {
                    let k = choose|k: int|
                        0 <= k < s.drop_first().len() && s.drop_first()[k] == t[j - 1];
                    assert(s[k + 1] == t[j - 1]);
                }
            } else {
                assert(r[i] == t[i - 1]);
                assert(r[j] == t[j - 1]);
                assert(!dir_entry_lt(t[j - 1], t[i - 1]));
            }
        }
    }
}

proof fn lemma_insert_file_sorted(e: EntryModel, s: Seq<EntryModel>)
    requires
        files_sorted(s),
    ensures
        files_sorted(insert_file(e, s)),
    decreases s.len(),
{
    if s.len() == 0 {
    } else if file_entry_lt(e, s[0]) {
        let r = insert_file(e, s);
        assert forall|i: int, j: int| 0 <= i < j < r.len() implies !file_entry_lt(r[j], r[i]) by {
            if i == 0 {
                assert(r[j] == s[j - 1]);
                if file_entry_lt(s[j - 1], e) {
                    lemma_file_entry_lt_trans(s[j - 1], e, s[0]);
                    if j - 1 == 0 {
                        lemma_file_entry_lt_irrefl(s[0]);
                    }
                }
            } else {
                assert(r[i] == s[i - 1]);
                assert(r[j] == s[j - 1]);
            }
        }
    } else {
        lemma_insert_file_sorted(e, s.drop_first());
        lemma_insert_file_elems(e, s.drop_first());
        let t = insert_file(e, s.drop_first());
        let r = insert_file(e, s);
        assert forall|i: int, j: int| 0 <= i < j < r.len() implies !file_entry_lt(r[j], r[i]) by {
            if i == 0 {
                assert(r[j] == t[j - 1]);
                if t[j - 1] != e {
                    let k = choose|k: int|
                        0 <= k < s.drop_first().len() && s.drop_first()[k] == t[j - 1];
                    assert(s[k + 1] == t[j - 1]);
                }
            } else {
                assert(r[i] == t[i - 1]);
                assert(r[j] == t[j - 1]);
                assert(!file_entry_lt(t[j - 1], t[i - 1]));
            }
        }
    }
}

proof fn lemma_sort_dirs_sorted(s: Seq<EntryModel>)
    ensures
        dirs_sorted(sort_dirs(s)),
    decreases s.len(),
{
    if s.len() > 0 {
        lemma_sort_dirs_sorted(s.drop_last());
        lemma_insert_dir_sorted(s.last(), sort_dirs(s.drop_last()));
    }
}

proof fn lemma_sort_files_sorted(s: Seq<EntryModel>)
    ensures
        files_sorted(sort_files(s)),
    decreases s.len(),
{
    if s.len() > 0 {
        lemma_sort_files_sorted(s.drop_last());
        lemma_insert_file_sorted(s.last(), sort_files(s.drop_last()));
    }
}

/// Within an arranged level the directory group is sorted by the
/// numeric-prefix comparator and the file group by plain name comparison:
/// no entry sorts strictly before one that precedes it in its group. The
/// root of the indexed tree is `arrange(walk_raws(s))`, so this holds of it,
/// and of every deeper level in the same way.
pub proof fn lemma_arrange_sorted(s: Seq<EntryModel>)
    ensures
        ({
            let nd = sort_dirs(dirs_of(s)).len() as int;
            let out = arrange(s);
            &&& forall|i: int, j: int| 0 <= i < j < nd ==> !dir_entry_lt(out[j], out[i])
            &&& forall|i: int, j: int|
                nd <= i < j < out.len() ==> !file_entry_lt(out[j], out[i])
        }),
{
    let sd = sort_dirs(dirs_of(s));
    let sf = sort_files(files_of(s));
    let nd = sd.len() as int;
    let out = arrange(s);
    lemma_sort_dirs_sorted(dirs_of(s));
    lemma_sort_files_sorted(files_of(s));
    assert forall|i: int, j: int| 0 <= i < j < nd implies !dir_entry_lt(out[j], out[i]) by {
        assert(out[i] == set_order_m(sd[i], i));
        assert(out[j] == set_order_m(sd[j], j));
        assert(m_name(out[i]) == m_name(sd[i]));
        assert(m_name(out[j]) == m_name(sd[j]));
        assert(!dir_entry_lt(sd[j], sd[i]));
    }
    assert forall|i: int, j: int| nd <= i < j < out.len() implies !file_entry_lt(
        out[j],
        out[i],
    ) by {
        assert(out[i] == set_order_m(sf[i - nd], i - nd));
        assert(out[j] == set_order_m(sf[j - nd], j - nd));
        assert(m_name(out[i]) == m_name(sf[i - nd]));
        assert(m_name(out[j]) == m_name(sf[j - nd]));
        assert(!file_entry_lt(sf[j - nd], sf[i - nd]));
    }
}

/// Indexing is deterministic: two raw listings with the same structure index
/// to the same tree, so indexing an unchanged directory twice yields
/// structurally identical output.
pub proof fn lemma_index_deterministic(a: Seq<RawEntry>, b: Seq<RawEntry>)
    requires
        raws_model(a) == raws_model(b),
    ensures
        index_spec(raws_model(a)) == index_spec(raws_model(b)),
{
}

} // verus!

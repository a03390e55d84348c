//! The extension to media-type lookup: a built-in table, an override table
//! parsed from two-column comma-separated text, and last-entry-wins lookup.

use vstd::prelude::*;

use crate::uid::spec_find;
use crate::uid::spec_split;

verus! {

/// An ASCII whitespace character, as line trimming removes.
pub open spec fn is_ascii_ws(c: char) -> bool {
    c == ' ' || c == '\t' || c == '\n' || c == '\r' || c == '\x0c'
}

/// The sequence without its leading ASCII whitespace.
pub open spec fn spec_trim_start(s: Seq<char>) -> Seq<char>
    decreases s.len(),
{
    if s.len() > 0 && is_ascii_ws(s[0]) {
        spec_trim_start(s.drop_first())
    } else {
        s
    }
}

/// The sequence without its trailing ASCII whitespace.
pub open spec fn spec_trim_end(s: Seq<char>) -> Seq<char>
    decreases s.len(),
{
    if s.len() > 0 && is_ascii_ws(s.last()) {
        spec_trim_end(s.drop_last())
    } else {
        s
    }
}

/// The sequence without leading and trailing ASCII whitespace.
pub open spec fn spec_trim(s: Seq<char>) -> Seq<char> {
    spec_trim_end(spec_trim_start(s))
}

/// Trimming the start keeps everything from the first non-whitespace on.
pub proof fn lemma_trim_start_at(s: Seq<char>, a: int)
    requires
        0 <= a <= s.len(),
        forall|k: int| 0 <= k < a ==> is_ascii_ws(#[trigger] s[k]),
        a == s.len() || !is_ascii_ws(s[a]),
    ensures
        spec_trim_start(s) == s.subrange(a, s.len() as int),
    decreases a,
{
    if a == 0 {
        if s.len() > 0 {
            assert(!is_ascii_ws(s[0]));
        }
        assert(s.subrange(0, s.len() as int) =~= s);
    } else {
        assert(is_ascii_ws(s[0]));
        let d = s.drop_first();
        assert(forall|k: int| 0 <= k < a - 1 ==> #[trigger] d[k] == s[k + 1]);
        if a - 1 < d.len() {
            assert(d[a - 1] == s[a as int]);
        }
        lemma_trim_start_at(d, a - 1);
        assert(d.subrange(a - 1, d.len() as int) =~= s.subrange(a, s.len() as int));
    }
}

/// Trimming the end keeps everything up to the last non-whitespace.
pub proof fn lemma_trim_end_at(s: Seq<char>, b: int)
    requires
        0 <= b <= s.len(),
        forall|k: int| b <= k < s.len() ==> is_ascii_ws(#[trigger] s[k]),
        b == 0 || !is_ascii_ws(s[b - 1]),
    ensures
        spec_trim_end(s) == s.subrange(0, b),
    decreases s.len(),
{
    if b == s.len() {
        if s.len() > 0 {
            assert(!is_ascii_ws(s.last()));
        }
        assert(s.subrange(0, b) =~= s);
    } else {
        assert(is_ascii_ws(s.last()));
        let d = s.drop_last();
        assert(forall|k: int| 0 <= k < d.len() ==> #[trigger] d[k] == s[k]);
        lemma_trim_end_at(d, b);
        assert(d.subrange(0, b) =~= s.subrange(0, b));
    }
}

/// The table entry a single line contributes: nothing unless the trimmed
/// line holds a comma; otherwise what is before the first comma maps to what
/// is after it.
pub open spec fn spec_line_entry(line: Seq<char>) -> Seq<(Seq<char>, Seq<char>)> {
    let t = spec_trim(line);
    let i = spec_find(t, ',');
    if i == -1 {
        Seq::empty()
    } else {
        seq![(t.subrange(0, i), t.subrange(i + 1, t.len() as int))]
    }
}

/// The entries a sequence of lines contributes, in order.
pub open spec fn spec_lines_entries(lines: Seq<Seq<char>>) -> Seq<(Seq<char>, Seq<char>)>
    decreases lines.len(),
{
    if lines.len() == 0 {
        Seq::empty()
    } else {
        spec_line_entry(lines.first()) + spec_lines_entries(lines.drop_first())
    }
}

/// The table that comma-separated text parses to.
pub open spec fn spec_csv_table(s: Seq<char>) -> Seq<(Seq<char>, Seq<char>)> {
    spec_lines_entries(spec_split(s, '\n'))
}

/// An extension to media-type lookup table; later entries take precedence.
#[derive(Debug)]
pub struct MediaTypeTable {
    /// The `(extension, media type)` pairs, later entries overriding earlier.
    pub entries: Vec<(String, String)>,
}

/// The mathematical content of a lookup table.
pub open spec fn table_view(entries: Seq<(String, String)>) -> Seq<(Seq<char>, Seq<char>)> {
    Seq::new(entries.len(), |i: int| (entries[i].0@, entries[i].1@))
}

/// The media type the table gives an extension: that of the last entry whose
/// extension matches, if any.
pub open spec fn spec_lookup(entries: Seq<(Seq<char>, Seq<char>)>, ext: Seq<char>) -> Option<
    Seq<char>,
>
    decreases entries.len(),
{
    if entries.len() == 0 {
        None
    } else if entries.last().0 == ext {
        Some(entries.last().1)
    } else {
        spec_lookup(entries.drop_last(), ext)
    }
}

impl MediaTypeTable {
    /// The empty table.
    pub fn new() -> (r: MediaTypeTable)
        ensures
            table_view(r.entries@) == Seq::<(Seq<char>, Seq<char>)>::empty(),
    {
        let r = MediaTypeTable { entries: Vec::new() };
        proof {
            assert(table_view(r.entries@) =~= Seq::<(Seq<char>, Seq<char>)>::empty());
        }
        r
    }

    /// Adds one mapping, overriding any earlier entry for the extension.
    pub fn insert(&mut self, ext: String, media_type: String)
        ensures
            table_view(final(self).entries@) == table_view(old(self).entries@).push(
                (ext@, media_type@),
            ),
    {
        let ghost before = table_view(self.entries@);
        self.entries.push((ext, media_type));
        proof {
            assert(table_view(self.entries@) =~= before.push(
                (self.entries@.last().0@, self.entries@.last().1@),
            ));
        }
    }

    /// Appends all of `other`'s mappings, which then take precedence over
    /// this table's own on any common extension.
    pub fn extend(&mut self, other: &MediaTypeTable)
        ensures
            table_view(final(self).entries@) == table_view(old(self).entries@) + table_view(
                other.entries@,
            ),
    {
        let ghost sv = table_view(self.entries@);
        let ghost ov = table_view(other.entries@);
        let mut k: usize = 0;
        while k < other.entries.len()
            invariant
                k <= other.entries@.len(),
                table_view(self.entries@) == sv + table_view(other.entries@.subrange(0, k as int)),
            decreases other.entries@.len() - k,
        {
            let e = &other.entries[k];
            let ghost before = table_view(self.entries@);
            self.entries.push((e.0.clone(), e.1.clone()));
            proof {
                assert(table_view(self.entries@) =~= before.push((e.0@, e.1@)));
                assert(sv + table_view(other.entries@.subrange(0, k + 1 as int)) =~= before.push(
                    (e.0@, e.1@),
                ));
            }
            k += 1;
        }
        proof {
            assert(other.entries@.subrange(0, other.entries@.len() as int) =~= other.entries@);
            assert(table_view(self.entries@) =~= sv + ov);
        }
    }

    /// Looks an extension up: the media type of the last matching entry.
    pub fn lookup(&self, ext: &str) -> (r: Option<String>)
        ensures
            match r {
                Some(mt) => spec_lookup(table_view(self.entries@), ext@) == Some(mt@),
                None => spec_lookup(table_view(self.entries@), ext@) is None,
            },
    {
        let ghost tv = table_view(self.entries@);
        let n = self.entries.len();
        let mut k: usize = n;
        proof {
            assert(tv.subrange(0, n as int) =~= tv);
        }
        while k > 0
            invariant
                k <= n,
                n == self.entries@.len(),
                tv == table_view(self.entries@),
                spec_lookup(tv, ext@) == spec_lookup(tv.subrange(0, k as int), ext@),
            decreases k,
        {
            let e = &self.entries[k - 1];
            proof {
                assert(tv.subrange(0, k as int).last() == (self.entries@[k - 1].0@, self.entries@[k
                    - 1].1@));
                assert(tv.subrange(0, k as int).drop_last() =~= tv.subrange(0, k - 1));
            }
            if crate::uid::str_eq(e.0.as_str(), ext) {
                return Some(e.1.clone());
            }
            k -= 1;
        }
        proof {
            assert(tv.subrange(0, 0) =~= Seq::<(Seq<char>, Seq<char>)>::empty());
        }
        None
    }
}

/// Parses two-column comma-separated text into a lookup table: one entry per
/// line that holds a comma after trimming, split at its first comma.
pub fn load_media_types_from_csv(content: &str) -> (r: MediaTypeTable)
    ensures
        table_view(r.entries@) == spec_csv_table(content@),
{
    let ghost lines = spec_split(content@, '\n');
    let n = content.unicode_len();
    let mut table = MediaTypeTable { entries: Vec::new() };
    let mut start: usize = 0;
    let mut p: usize = 0;
    let mut done: bool = false;
    proof {
        assert(content@.subrange(0, n as int) =~= content@);
        assert(table_view(table.entries@) =~= Seq::<(Seq<char>, Seq<char>)>::empty());
        assert(table_view(table.entries@) + spec_lines_entries(
            spec_split(content@.subrange(0, n as int), '\n'),
        ) =~= spec_csv_table(content@));
    }
    while !done
        invariant
            n == content@.len(),
            start <= p <= n,
            forall|k: int| start <= k < p ==> content@[k] != '\n',
            !done ==> table_view(table.entries@) + spec_lines_entries(
                spec_split(content@.subrange(start as int, n as int), '\n'),
            ) == spec_csv_table(content@),
            done ==> table_view(table.entries@) == spec_csv_table(content@),
        decreases (if done {
            0int
        } else {
            1int
        }), n - p,
    {
        if p < n && content.get_char(p) != '\n' {
            p += 1;
        } else {
            let ghost suffix = content@.subrange(start as int, n as int);
            let ghost line = content@.subrange(start as int, p as int);
            proof {
                assert(forall|k: int|
                    0 <= k < suffix.len() ==> #[trigger] suffix[k] == content@[k + start]);
                if p < n {
                    crate::uid::lemma_find_at(suffix, '\n', p - start);
                    assert(suffix.subrange(0, p - start) =~= line);
                    assert(suffix.subrange(p - start + 1, suffix.len() as int) =~= content@.subrange(
                        p + 1,
                        n as int,
                    ));
                } else {
                    crate::uid::lemma_find_none(suffix, '\n');
                    assert(suffix =~= line);
                }
            }
            let ghost before = table_view(table.entries@);
            push_line_entry(content, start, p, &mut table);
            proof {
                assert(table_view(table.entries@) == before + spec_line_entry(line));
                if p < n {
                    assert(spec_lines_entries(spec_split(suffix, '\n')) == spec_line_entry(line)
                        + spec_lines_entries(
                        spec_split(content@.subrange(p + 1, n as int), '\n'),
                    )) by {
                        assert(spec_split(suffix, '\n') == seq![line] + spec_split(
                            content@.subrange(p + 1, n as int),
                            '\n',
                        ));
                        assert((seq![line] + spec_split(
                            content@.subrange(p + 1, n as int),
                            '\n',
                        )).drop_first() =~= spec_split(content@.subrange(p + 1, n as int), '\n'));
                    }
                    assert((before + spec_line_entry(line)) + spec_lines_entries(
                        spec_split(content@.subrange(p + 1, n as int), '\n'),
                    ) =~= before + spec_lines_entries(spec_split(suffix, '\n')));
                } else {
                    assert(spec_split(suffix, '\n') == seq![line]);
                    assert(seq![line].first() == line);
                    assert(seq![line].drop_first() =~= Seq::<Seq<char>>::empty());
                    assert(spec_lines_entries(Seq::<Seq<char>>::empty()) =~= Seq::<
                        (Seq<char>, Seq<char>),
                    >::empty());
                    assert(spec_lines_entries(spec_split(suffix, '\n')) =~= spec_line_entry(line));
                }
            }
            if p < n {
                start = p + 1;
                p = p + 1;
            } else {
                done = true;
            }
        }
    }
    table
}

/// Appends the entry one line contributes, if any: the line is trimmed and,
/// if it holds a comma, split at the first one.
#[verifier::loop_isolation(false)]
fn push_line_entry(content: &str, start: usize, end: usize, table: &mut MediaTypeTable)
    requires
        start <= end <= content@.len(),
    ensures
        table_view(final(table).entries@) == table_view(old(table).entries@) + spec_line_entry(
            content@.subrange(start as int, end as int),
        ),
{
    let ghost line = content@.subrange(start as int, end as int);
    let ghost before = table_view(table.entries@);
    let mut a: usize = start;
    while a < end && is_ws_char(content.get_char(a))
        invariant
            start <= a <= end,
            content@.len() >= end,
            forall|k: int| start <= k < a ==> is_ascii_ws(#[trigger] content@[k]),
        decreases end - a,
    {
        a += 1;
    }
    let mut b: usize = end;
    while b > a && is_ws_char(content.get_char(b - 1))
        invariant
            a <= b <= end,
            content@.len() >= end,
            forall|k: int| b <= k < end ==> is_ascii_ws(#[trigger] content@[k]),
        decreases b,
    {
        b -= 1;
    }
    proof {
        assert(forall|k: int| 0 <= k < line.len() ==> #[trigger] line[k] == content@[k + start]);
        lemma_trim_start_at(line, a - start);
        let ts = line.subrange(a - start, line.len() as int);
        assert(forall|k: int| 0 <= k < ts.len() ==> #[trigger] ts[k] == content@[k + a]);
        lemma_trim_end_at(ts, b - a);
        assert(spec_trim(line) == ts.subrange(0, b - a));
        assert(ts.subrange(0, b - a) =~= content@.subrange(a as int, b as int));
    }
    let ghost t = spec_trim(line);
    let mut c: usize = a;
    while c < b && content.get_char(c) != ','
        invariant
            a <= c <= b,
            b <= content@.len(),
            forall|k: int| a <= k < c ==> content@[k] != ',',
        decreases b - c,
    {
        c += 1;
    }
    proof {
        assert(forall|k: int| 0 <= k < t.len() ==> #[trigger] t[k] == content@[k + a]);
    }
    if c == b {
        proof {
            crate::uid::lemma_find_none(t, ',');
            assert(before + spec_line_entry(line) =~= before);
        }
        return ;
    }
    proof {
        crate::uid::lemma_find_at(t, ',', c - a);
        assert(t.subrange(0, c - a) =~= content@.subrange(a as int, c as int));
        assert(t.subrange(c - a + 1, t.len() as int) =~= content@.subrange(c + 1, b as int));
    }
    let ext = content.substring_char(a, c).to_owned();
    let mt = content.substring_char(c + 1, b).to_owned();
    table.entries.push((ext, mt));
    proof {
        assert(table_view(table.entries@) =~= before + spec_line_entry(line));
    }
}

/// True exactly on ASCII whitespace.
fn is_ws_char(c: char) -> (r: bool)
    ensures
        r == is_ascii_ws(c),
{
    c == ' ' || c == '\t' || c == '\n' || c == '\r' || c == '\x0c'
}

/// The mappings of the built-in table.
pub open spec fn spec_builtin_table() -> Seq<(Seq<char>, Seq<char>)> {
    seq![
        ("bin"@, "application/octet-stream"@),
        ("css"@, "text/css"@),
        ("csv"@, "text/csv"@),
        ("gif"@, "image/gif"@),
        ("htm"@, "text/html"@),
        ("html"@, "text/html"@),
        ("jpeg"@, "image/jpeg"@),
        ("jpg"@, "image/jpeg"@),
        ("js"@, "text/javascript"@),
        ("json"@, "application/json"@),
        ("mp3"@, "audio/mpeg"@),
        ("mp4"@, "video/mp4"@),
        ("ogg"@, "audio/ogg"@),
        ("pdf"@, "application/pdf"@),
        ("png"@, "image/png"@),
        ("svg"@, "image/svg+xml"@),
        ("txt"@, "text/plain"@),
        ("wav"@, "audio/wav"@),
        ("xml"@, "application/xml"@),
        ("zip"@, "application/zip"@),
    ]
}

/// The built-in extension table: a fixed set of well-known media types,
/// exactly `spec_builtin_table`. Generating a fuller table from reference
/// data is outside this library; callers wanting more mappings supply an
/// override table.
pub fn load_arp_builtin_media_types() -> (r: MediaTypeTable)
    ensures
        table_view(r.entries@) == spec_builtin_table(),
        spec_lookup(table_view(r.entries@), "txt"@) is Some,
{
    let mut t = MediaTypeTable { entries: Vec::new() };
    t.insert(String::from_str("bin"), String::from_str("application/octet-stream"));
    t.insert(String::from_str("css"), String::from_str("text/css"));
    t.insert(String::from_str("csv"), String::from_str("text/csv"));
    t.insert(String::from_str("gif"), String::from_str("image/gif"));
    t.insert(String::from_str("htm"), String::from_str("text/html"));
    t.insert(String::from_str("html"), String::from_str("text/html"));
    t.insert(String::from_str("jpeg"), String::from_str("image/jpeg"));
    t.insert(String::from_str("jpg"), String::from_str("image/jpeg"));
    t.insert(String::from_str("js"), String::from_str("text/javascript"));
    t.insert(String::from_str("json"), String::from_str("application/json"));
    t.insert(String::from_str("mp3"), String::from_str("audio/mpeg"));
    t.insert(String::from_str("mp4"), String::from_str("video/mp4"));
    t.insert(String::from_str("ogg"), String::from_str("audio/ogg"));
    t.insert(String::from_str("pdf"), String::from_str("application/pdf"));
    t.insert(String::from_str("png"), String::from_str("image/png"));
    t.insert(String::from_str("svg"), String::from_str("image/svg+xml"));
    t.insert(String::from_str("txt"), String::from_str("text/plain"));
    t.insert(String::from_str("wav"), String::from_str("audio/wav"));
    t.insert(String::from_str("xml"), String::from_str("application/xml"));
    t.insert(String::from_str("zip"), String::from_str("application/zip"));
    proof {
        let tv = table_view(t.entries@);
        assert(tv =~= spec_builtin_table());
        assert(spec_lookup(tv, "txt"@) is Some) by {
            assert(tv[16].0 == "txt"@);
            lemma_lookup_found(tv, "txt"@, 16);
        }
    }
    t
}

/// If some entry matches, lookup finds a match.
pub proof fn lemma_lookup_found(entries: Seq<(Seq<char>, Seq<char>)>, ext: Seq<char>, i: int)
    requires
        0 <= i < entries.len(),
        entries[i].0 == ext,
    ensures
        spec_lookup(entries, ext) is Some,
    decreases entries.len(),
{
    if entries.last().0 != ext {
        assert(i < entries.len() - 1);
        assert(entries.drop_last()[i] == entries[i]);
        lemma_lookup_found(entries.drop_last(), ext, i);
    }
}

} // verus!

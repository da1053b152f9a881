//! Stored registry sources: naming, classification, and the list kept in
//! `sources.json`.

use vstd::prelude::*;
use crate::error::PmError;
use crate::paths::{lemma_split_concat, lemma_split_single, slash, split_slash};
use crate::text::{
    chars_of, has_prefix, owned, starts_with, str_eq, string_of, sub_chars,
};

verus! {

/// A registry source: an http(s) URL or a local path to an `index.json`.
pub struct SourceEntry {
    pub name: String,
    pub url: String,
    /// `remote` or `local`.
    pub kind: String,
}

/// The sources file.
pub struct SourcesFile {
    pub schema_version: u32,
    pub sources: Vec<SourceEntry>,
}

impl Default for SourcesFile {
    fn default() -> (res: Self)
        ensures
            res.schema_version == 1,
            res.sources@.len() == 0,
    {
        SourcesFile { schema_version: 1, sources: Vec::new() }
    }
}

/// A character with the Unicode `White_Space` property (`char::is_whitespace`).
pub open spec fn white_space(c: char) -> bool {
    let u = c as u32;
    ||| 0x9 <= u <= 0xd
    ||| u == 0x20
    ||| u == 0x85
    ||| u == 0xa0
    ||| u == 0x1680
    ||| 0x2000 <= u <= 0x200a
    ||| u == 0x2028
    ||| u == 0x2029
    ||| u == 0x202f
    ||| u == 0x205f
    ||| u == 0x3000
}

/// Whether `c` has the Unicode `White_Space` property.
pub fn is_whitespace(c: char) -> (res: bool)
    ensures
        res == white_space(c),
{
    let u = c as u32;
    (0x9 <= u && u <= 0xd) || u == 0x20 || u == 0x85 || u == 0xa0 || u == 0x1680 || (0x2000 <= u
        && u <= 0x200a) || u == 0x2028 || u == 0x2029 || u == 0x202f || u == 0x205f || u == 0x3000
}

/// `s` is empty once surrounding white space is trimmed: it holds nothing
/// but white space.
pub open spec fn blank(s: Seq<char>) -> bool {
    forall|i: int| 0 <= i < s.len() ==> white_space(#[trigger] s[i])
}

/// Whether `s` holds nothing but white space (`s.trim().is_empty()`).
pub fn is_blank(s: &str) -> (res: bool)
    ensures
        res == blank(s@),
{
    let cs = chars_of(s);
    let mut i: usize = 0;
    while i < cs.len()
        invariant
            cs@ == s@,
            i <= cs.len(),
            forall|k: int| 0 <= k < i ==> white_space(#[trigger] cs@[k]),
        decreases cs.len() - i,
    {
        if !is_whitespace(cs[i]) {
            return false;
        }
        i = i + 1;
    }
    true
}

/// `s` without its trailing `c` characters (`trim_end_matches(c)`).
pub open spec fn trim_end_char(s: Seq<char>, c: char) -> Seq<char>
    decreases s.len(),
{
    if s.len() > 0 && s.last() == c {
        trim_end_char(s.drop_last(), c)
    } else {
        s
    }
}

/// The name a source gets from its URL: its last `/` segment once trailing
/// `/` are gone (`index.json` for `.../main/index.json`); `source` when that
/// is empty.
pub open spec fn derived_name(url: Seq<char>) -> Seq<char> {
    let t = split_slash(trim_end_char(url, '/')).last();
    if t.len() == 0 {
        "source"@
    } else {
        t
    }
}

/// The name a source gets from its URL or path.
pub fn derive_name(url: &str) -> (res: String)
    ensures
        res@ == derived_name(url@),
{
    let mut cs = chars_of(url);
    while cs.len() > 0 && cs[cs.len() - 1] == '/'
        invariant
            trim_end_char(cs@, '/') == trim_end_char(url@, '/'),
        decreases cs.len(),
    {
        cs.pop();
    }
    assert(cs@ == trim_end_char(url@, '/'));
    let mut start = cs.len();
    while start > 0 && cs[start - 1] != '/'
        invariant
            start <= cs.len(),
            forall|k: int| start <= k < cs.len() ==> cs@[k] != '/',
        decreases start,
    {
        start = start - 1;
    }
    let n = cs.len();
    let piece = sub_chars(cs.as_slice(), start, n);
    proof {
        lemma_last_piece(cs@, start as int);
    }
    if piece.len() == 0 {
        owned("source")
    } else {
        string_of(piece.as_slice())
    }
}

/// The last `/` piece of `s` is what follows its last `/`.
proof fn lemma_last_piece(s: Seq<char>, start: int)
    requires
        0 <= start <= s.len(),
        start == 0 || s[start - 1] == '/',
        forall|k: int| start <= k < s.len() ==> s[k] != '/',
    ensures
        split_slash(s).last() == s.subrange(start, s.len() as int),
{
    let y = s.subrange(start, s.len() as int);
    assert(!y.contains('/')) by {
        assert forall|k: int| 0 <= k < y.len() implies y[k] != '/' by {
            assert(y[k] == s[start + k]);
        }
    }
    lemma_split_single(y);
    if start == 0 {
        assert(s =~= y);
    } else {
        let x = s.take(start - 1);
        assert(s =~= x + slash() + y);
        lemma_split_concat(x, y);
    }
}

/// A character that a cache file name keeps: an ASCII letter or digit,
/// `-` or `_`.
pub open spec fn name_safe(c: char) -> bool {
    ('a' <= c <= 'z') || ('A' <= c <= 'Z') || ('0' <= c <= '9') || c == '-' || c == '_'
}

/// `name` with every other character replaced by `_`.
pub open spec fn sanitized(name: Seq<char>) -> Seq<char> {
    name.map_values(|c: char| if name_safe(c) { c } else { '_' })
}

/// `name` made safe for a file name: characters other than ASCII letters,
/// digits, `-` and `_` become `_`.
pub fn sanitize_name(name: &str) -> (res: String)
    ensures
        res@ == sanitized(name@),
{
    let cs = chars_of(name);
    let mut out: Vec<char> = Vec::new();
    let mut i: usize = 0;
    while i < cs.len()
        invariant
            cs@ == name@,
            i <= cs.len(),
            out@ == sanitized(name@).take(i as int),
        decreases cs.len() - i,
    {
        let c = cs[i];
        let safe = ('a' <= c && c <= 'z') || ('A' <= c && c <= 'Z') || ('0' <= c && c <= '9') || c
            == '-' || c == '_';
        if safe {
            out.push(c);
        } else {
            out.push('_');
        }
        i = i + 1;
        assert(out@ =~= sanitized(name@).take(i as int));
    }
    assert(sanitized(name@).take(cs.len() as int) =~= sanitized(name@));
    string_of(out.as_slice())
}

/// The file that a source is cached in under `cache/sources`:
/// `<sanitized name>.json`.
pub fn source_cache_file_name(name: &str) -> (res: String)
    ensures
        res@ == sanitized(name@) + ".json"@,
{
    let mut out = sanitize_name(name);
    out.append(".json");
    out
}

/// `url` is fetched over the network: it starts with `http://` or `https://`.
pub open spec fn is_http(url: Seq<char>) -> bool {
    has_prefix(url, "http://"@) || has_prefix(url, "https://"@)
}

/// Whether `url` starts with `http://` or `https://`.
pub fn is_http_url(url: &str) -> (res: bool)
    ensures
        res == is_http(url@),
{
    let cs = chars_of(url);
    let a = chars_of("http://");
    let b = chars_of("https://");
    starts_with(cs.as_slice(), a.as_slice()) || starts_with(cs.as_slice(), b.as_slice())
}

/// Whether a stored source is refreshed by download: its kind is `remote`
/// or its URL is http(s); otherwise it is copied from a local path.
pub fn is_remote_source(s: &SourceEntry) -> (res: bool)
    ensures
        res == (s.kind@ == "remote"@ || is_http(s.url@)),
{
    str_eq(s.kind.as_str(), "remote") || is_http_url(s.url.as_str())
}

/// The source that `source add` stores: the given name or one derived from
/// the URL, and kind `remote` for http(s) URLs, `local` otherwise. A URL of
/// nothing but white space is refused.
pub fn plan_source(name: Option<String>, url: String) -> (res: Result<SourceEntry, PmError>)
    ensures
        blank(url@) <==> res is Err,
        res matches Err(e) ==> e is EmptySourceUrl,
        res matches Ok(entry) ==> {
            &&& entry.url@ == url@
            &&& entry.name@ == (match name {
                Some(n) => n@,
                None => derived_name(url@),
            })
            &&& entry.kind@ == (if is_http(url@) {
                "remote"@
            } else {
                "local"@
            })
        },
{
    if is_blank(url.as_str()) {
        return Err(PmError::EmptySourceUrl);
    }
    let name = match name {
        Some(n) => n,
        None => derive_name(url.as_str()),
    };
    let kind = if is_http_url(url.as_str()) {
        owned("remote")
    } else {
        owned("local")
    };
    Ok(SourceEntry { name, url, kind })
}

/// The first source at or after `i` named exactly `name`.
pub open spec fn source_index_from(s: Seq<SourceEntry>, name: Seq<char>, i: int) -> Option<int>
    decreases s.len() - i,
{
    if i < 0 || i >= s.len() {
        None
    } else if s[i].name@ == name {
        Some(i)
    } else {
        source_index_from(s, name, i + 1)
    }
}

/// `source_index_from` finds the first source with the name.
pub proof fn lemma_source_index_from(s: Seq<SourceEntry>, name: Seq<char>, i: int)
    requires
        0 <= i,
    ensures
        source_index_from(s, name, i) matches Some(j) ==> i <= j < s.len() && s[j].name@ == name
            && forall|m: int| i <= m < j ==> (#[trigger] s[m]).name@ != name,
        source_index_from(s, name, i) is None <==> forall|m: int|
            i <= m < s.len() ==> (#[trigger] s[m]).name@ != name,
    decreases s.len() - i,
{
    if i < s.len() && s[i].name@ != name {
        lemma_source_index_from(s, name, i + 1);
    }
}

/// A source as `add` leaves it: its name, URL and kind.
pub open spec fn source_fields(e: SourceEntry) -> (Seq<char>, Seq<char>, Seq<char>) {
    (e.name@, e.url@, e.kind@)
}

/// The sources by name, URL and kind.
pub open spec fn sources_view(s: Seq<SourceEntry>) -> Seq<(Seq<char>, Seq<char>, Seq<char>)> {
    s.map_values(|e: SourceEntry| source_fields(e))
}

/// The sources after adding `entry`: the first source of the same name
/// takes its URL and kind, or `entry` is added at the end.
pub open spec fn sources_after_add(s: Seq<SourceEntry>, entry: SourceEntry) -> Seq<
    (Seq<char>, Seq<char>, Seq<char>),
> {
    match source_index_from(s, entry.name@, 0) {
        Some(i) => sources_view(s).update(i, source_fields(entry)),
        None => sources_view(s).push(source_fields(entry)),
    }
}

/// Add `entry`, or update the URL and kind of the source of the same name.
/// Returns whether it was added as a new source.
pub fn upsert_source(file: &mut SourcesFile, entry: SourceEntry) -> (res: bool)
    ensures
        final(file).schema_version == old(file).schema_version,
        sources_view(final(file).sources@) == sources_after_add(old(file).sources@, entry),
        res == (source_index_from(old(file).sources@, entry.name@, 0) is None),
{
    let ghost s0 = file.sources@;
    let ghost ef = source_fields(entry);
    let mut i: usize = 0;
    while i < file.sources.len()
        invariant
            i <= file.sources.len(),
            file.sources@ == s0,
            s0 == old(file).sources@,
            file.schema_version == old(file).schema_version,
            ef == source_fields(entry),
            source_index_from(s0, entry.name@, 0) == source_index_from(s0, entry.name@, i as int),
        decreases file.sources.len() - i,
    {
        if str_eq(file.sources[i].name.as_str(), entry.name.as_str()) {
            let mut slot = SourceEntry { name: String::new(), url: String::new(), kind: String::new() };
            file.sources.set_and_swap(i, &mut slot);
            assert(slot.name@ == entry.name@);
            slot.url = entry.url;
            slot.kind = entry.kind;
            assert(source_fields(slot) == ef);
            file.sources.set_and_swap(i, &mut slot);
            assert(sources_view(file.sources@) =~= sources_view(s0).update(i as int, ef));
            return false;
        }
        i = i + 1;
    }
    file.sources.push(entry);
    assert(sources_view(file.sources@) =~= sources_view(s0).push(ef));
    true
}

/// The test that keeps a source whose name and URL both differ from `x`.
pub open spec fn not_named(x: Seq<char>) -> spec_fn(SourceEntry) -> bool {
    |e: SourceEntry| e.name@ != x && e.url@ != x
}

/// Remove every source whose name or URL is `name_or_url`; fails when
/// there is none.
pub fn remove_source(file: &mut SourcesFile, name_or_url: &str) -> (res: Result<(), PmError>)
    ensures
        final(file).schema_version == old(file).schema_version,
        final(file).sources@ == old(file).sources@.filter(not_named(name_or_url@)),
        res is Err <==> final(file).sources@.len() == old(file).sources@.len(),
        res matches Err(e) ==> e matches PmError::SourceNotFound { name_or_url: x } && x@
            == name_or_url@,
{
    let ghost orig = file.sources@;
    let ghost pred = not_named(name_or_url@);
    let before = file.sources.len();
    let mut kept: Vec<SourceEntry> = Vec::new();
    let mut rest: Vec<SourceEntry> = Vec::new();
    core::mem::swap(&mut rest, &mut file.sources);
    let mut n: usize = 0;
    proof {
        reveal(Seq::filter);
    }
    assert(kept@ =~= orig.take(0).filter(pred));
    assert(rest@ =~= orig.skip(0));
    while rest.len() > 0
        invariant
            pred == not_named(name_or_url@),
            orig.len() == before,
            n + rest@.len() == orig.len(),
            rest@ == orig.skip(n as int),
            kept@ == orig.take(n as int).filter(pred),
        decreases rest@.len(),
    {
        let e = rest.remove(0);
        assert(e == orig[n as int]);
        let keep = !str_eq(e.name.as_str(), name_or_url) && !str_eq(e.url.as_str(), name_or_url);
        proof {
            reveal(Seq::filter);
            assert(orig.take(n + 1).drop_last() =~= orig.take(n as int));
            assert(orig.take(n + 1).last() == orig[n as int]);
        }
        if keep {
            kept.push(e);
        }
        n = n + 1;
        assert(rest@ =~= orig.skip(n as int));
    }
    assert(orig.take(n as int) =~= orig);
    let unchanged = kept.len() == before;
    file.sources = kept;
    if unchanged {
        return Err(PmError::SourceNotFound { name_or_url: owned(name_or_url) });
    }
    Ok(())
}

/// After adding a source, the first source of its name has its URL and kind.
pub proof fn law_added_source_is_found(s: Seq<SourceEntry>, e: SourceEntry)
    ensures
        ({
            let t = sources_after_add(s, e);
            let j = match source_index_from(s, e.name@, 0) {
                Some(i) => i,
                None => s.len() as int,
            };
            &&& 0 <= j < t.len()
            &&& t[j] == source_fields(e)
            &&& forall|m: int| 0 <= m < j ==> (#[trigger] t[m]).0 != e.name@
        }),
{
    lemma_source_index_from(s, e.name@, 0);
    let t = sources_after_add(s, e);
    let j = match source_index_from(s, e.name@, 0) {
        Some(i) => i,
        None => s.len() as int,
    };
    assert forall|m: int| 0 <= m < j implies (#[trigger] t[m]).0 != e.name@ by {
        assert(t[m] == source_fields(s[m]));
    }
}

/// After removing `x`, no source is named `x` or has the URL `x`.
pub proof fn law_removed_source_absent(s: Seq<SourceEntry>, x: Seq<char>, i: int)
    requires
        0 <= i < s.filter(not_named(x)).len(),
    ensures
        s.filter(not_named(x))[i].name@ != x,
        s.filter(not_named(x))[i].url@ != x,
{
    let pred = not_named(x);
    s.lemma_filter_pred(pred, i);
}

/// A derived source name is never empty.
pub proof fn law_derived_name_not_empty(url: Seq<char>)
    ensures
        derived_name(url).len() > 0,
{
    reveal_strlit("source");
}

/// A sanitized name has the length of the name and only characters that a
/// file name keeps.
pub proof fn law_sanitized_is_safe(name: Seq<char>)
    ensures
        sanitized(name).len() == name.len(),
        forall|i: int| 0 <= i < name.len() ==> name_safe(#[trigger] sanitized(name)[i]),
{
}

} // verus!

//! The file server: path sanitization, resolution planning, and the
//! directory-listing page.
use vstd::prelude::*;
use vstd::seq_lib::group_seq_properties;
use crate::text::{is_prefix_of, spec_remove_last_slash, remove_last_slash, str_eq};

verus! {

/// Index of the first `/` in `s` at or past `pos`, or the length of `s`.
pub closed spec fn first_slash(s: Seq<char>, pos: int) -> int
    decreases s.len() - pos when 0 <= pos <= s.len()
{
    if pos >= s.len() {
        s.len() as int
    } else if s[pos] == '/' {
        pos
    } else {
        first_slash(s, pos + 1)
    }
}

pub proof fn lemma_first_slash_bounds(s: Seq<char>, pos: int)
    requires
        0 <= pos <= s.len(),
    ensures
        pos <= first_slash(s, pos) <= s.len(),
        first_slash(s, pos) < s.len() ==> s[first_slash(s, pos)] == '/',
        forall|j: int| pos <= j < first_slash(s, pos) ==> s[j] != '/',
    decreases s.len() - pos,
{
    if pos < s.len() && s[pos] != '/' {
        lemma_first_slash_bounds(s, pos + 1);
    }
}

/// The `/`-separated parts of a path, empty parts kept.
pub closed spec fn spec_segments(s: Seq<char>) -> Seq<Seq<char>>
    decreases s.len() via spec_segments_decreases
{
    let i = first_slash(s, 0);
    if i == s.len() {
        seq![s]
    } else {
        seq![s.subrange(0, i)] + spec_segments(s.subrange(i + 1, s.len() as int))
    }
}

#[via_fn]
proof fn spec_segments_decreases(s: Seq<char>) {
    lemma_first_slash_bounds(s, 0);
}

/// A path part the sanitizer keeps: not empty, not `.`, not `..`.
pub open spec fn is_normal(seg: Seq<char>) -> bool {
    seg.len() > 0 && seg != "."@ && seg != ".."@
}

/// The parts joined back with `/`.
pub closed spec fn spec_join(parts: Seq<Seq<char>>) -> Seq<char>
    decreases parts.len(),
{
    if parts.len() == 0 {
        Seq::empty()
    } else if parts.len() == 1 {
        parts[0]
    } else {
        parts[0] + "/"@ + spec_join(parts.drop_first())
    }
}

/// The sanitized form of a path: a leading `/` when the input had one,
/// then only the normal parts, every `.` and `..` dropped.
pub open spec fn spec_sanitize(s: Seq<char>) -> Seq<char> {
    (if s.len() > 0 && s[0] == '/' {
        "/"@
    } else {
        Seq::<char>::empty()
    }) + spec_join(spec_segments(s).filter(|seg: Seq<char>| is_normal(seg)))
}

pub proof fn lemma_join_push(parts: Seq<Seq<char>>, x: Seq<char>)
    ensures
        spec_join(parts.push(x)) == spec_join(parts) + (if parts.len() > 0 {
            "/"@ + x
        } else {
            x
        }),
    decreases parts.len(),
{
    if parts.len() == 0 {
        assert(parts.push(x)[0] =~= x);
        assert(spec_join(parts.push(x)) == x);
        assert(spec_join(parts) + x =~= x);
    } else if parts.len() == 1 {
        assert(parts.push(x).drop_first() =~= seq![x]);
        assert(spec_join(seq![x]) == x);
        assert(spec_join(parts.push(x)) == parts.push(x)[0] + "/"@ + x);
        assert(parts.push(x)[0] == parts[0]);
        assert(spec_join(parts) == parts[0]);
        assert(parts[0] + "/"@ + x =~= parts[0] + ("/"@ + x));
    } else {
        assert(parts.push(x).drop_first() =~= parts.drop_first().push(x));
        lemma_join_push(parts.drop_first(), x);
        assert(spec_join(parts.push(x)) == parts[0] + "/"@ + (spec_join(parts.drop_first()) + (
        "/"@ + x)));
        assert(parts[0] + "/"@ + (spec_join(parts.drop_first()) + ("/"@ + x)) =~= (parts[0] + "/"@
            + spec_join(parts.drop_first())) + ("/"@ + x));
    }
}

/// Joining more parts only writes on: the join of a prefix run of parts is
/// a prefix of the longer join.
pub proof fn lemma_join_prefix(a: Seq<Seq<char>>, b: Seq<Seq<char>>)
    ensures
        is_prefix_of(spec_join(a), spec_join(a + b)),
    decreases b.len(),
{
    if b.len() == 0 {
        assert(a + b =~= a);
        assert(spec_join(a).subrange(0, spec_join(a).len() as int) =~= spec_join(a));
    } else {
        lemma_join_prefix(a, b.drop_last());
        assert((a + b).drop_last() =~= a + b.drop_last());
        lemma_join_push(a + b.drop_last(), b.last());
        assert(a + b =~= (a + b.drop_last()).push(b.last()));
        let pa = spec_join(a);
        let pm = spec_join(a + b.drop_last());
        let pf = spec_join(a + b);
        assert(is_prefix_of(pa, pm));
        assert(pm.subrange(0, pa.len() as int) == pa);
        assert(pf.subrange(0, pa.len() as int) =~= pa);
    }
}

proof fn lemma_first_slash_concat(a: Seq<char>, b: Seq<char>, pos: int)
    requires
        0 <= pos <= a.len(),
        b.len() > 0 && b[0] == '/',
    ensures
        first_slash(a, pos) < a.len() ==> first_slash(a + b, pos) == first_slash(a, pos),
        first_slash(a, pos) == a.len() ==> first_slash(a + b, pos) == a.len(),
    decreases a.len() - pos,
{
    lemma_first_slash_bounds(a, pos);
    if pos == a.len() {
        assert((a + b)[pos] == b[0]);
    } else if a[pos] == '/' {
        assert((a + b)[pos] == a[pos]);
    } else {
        assert((a + b)[pos] == a[pos]);
        lemma_first_slash_concat(a, b, pos + 1);
    }
}

/// Splitting distributes over concatenation at a `/` boundary.
pub proof fn lemma_segments_concat(a: Seq<char>, b: Seq<char>)
    requires
        b.len() > 0 && b[0] == '/',
    ensures
        spec_segments(a + b) == spec_segments(a) + spec_segments(
            b.subrange(1, b.len() as int),
        ),
    decreases a.len(),
{
    lemma_first_slash_bounds(a, 0);
    lemma_first_slash_concat(a, b, 0);
    let i = first_slash(a, 0);
    if i == a.len() {
        assert((a + b).subrange(0, i) =~= a);
        assert((a + b).subrange(i + 1, (a + b).len() as int) =~= b.subrange(1, b.len() as int));
        assert(spec_segments(a + b) =~= spec_segments(a) + spec_segments(
            b.subrange(1, b.len() as int),
        ));
    } else {
        let a2 = a.subrange(i + 1, a.len() as int);
        assert((a + b).subrange(0, i) =~= a.subrange(0, i));
        assert((a + b).subrange(i + 1, (a + b).len() as int) =~= a2 + b);
        lemma_segments_concat(a2, b);
        assert(spec_segments(a + b) =~= spec_segments(a) + spec_segments(
            b.subrange(1, b.len() as int),
        ));
    }
}

proof fn lemma_filter_all(parts: Seq<Seq<char>>)
    requires
        forall|i: int| 0 <= i < parts.len() ==> is_normal(#[trigger] parts[i]),
    ensures
        parts.filter(|seg: Seq<char>| is_normal(seg)) == parts,
    decreases parts.len(),
{
    reveal(Seq::filter);
    if parts.len() > 0 {
        lemma_filter_all(parts.drop_last());
        assert(parts.filter(|seg: Seq<char>| is_normal(seg)) =~= parts);
    }
}

/// Sanitizing confines a request to its root: when the root path has only
/// normal parts, the sanitized `root + rest` starts with the sanitized
/// root, whatever `.` or `..` parts `rest` carries.
pub proof fn lemma_sanitize_confined(root: Seq<char>, rest: Seq<char>)
    requires
        root.len() > 0,
        rest.len() == 0 || rest[0] == '/',
        forall|i: int|
            0 <= i < spec_segments(root).len() ==> is_normal(#[trigger] spec_segments(root)[i]),
    ensures
        is_prefix_of(spec_sanitize(root), spec_sanitize(root + rest)),
{
    broadcast use group_seq_properties;

    if rest.len() == 0 {
        assert(root + rest =~= root);
        let r = spec_sanitize(root);
        assert(r.subrange(0, r.len() as int) =~= r);
    } else {
        lemma_segments_concat(root, rest);
        let segs_root = spec_segments(root);
        let segs_rest = spec_segments(rest.subrange(1, rest.len() as int));
        let pred = |seg: Seq<char>| is_normal(seg);
        Seq::filter_distributes_over_add(segs_root, segs_rest, pred);
        lemma_filter_all(segs_root);
        lemma_join_prefix(segs_root, segs_rest.filter(pred));
        let flag = if root[0] == '/' {
            "/"@
        } else {
            Seq::<char>::empty()
        };
        assert((root + rest)[0] == root[0]);
        let ja = spec_join(segs_root);
        let jf = spec_join(segs_root + segs_rest.filter(pred));
        assert(jf.subrange(0, ja.len() as int) == ja);
        let sa = spec_sanitize(root);
        let sf = spec_sanitize(root + rest);
        assert(sa =~= flag + ja);
        assert(sf =~= flag + jf);
        assert(sf.subrange(0, sa.len() as int) =~= sa);
    }
}

/// Splits a path into its `/`-separated parts.
fn split_segments(path: &str) -> (r: Vec<String>)
    ensures
        r@.map_values(|x: String| x@) == spec_segments(path@),
{
    let n = path.unicode_len();
    let mut segs: Vec<String> = Vec::new();
    let mut pos: usize = 0;
    proof {
        assert(path@.subrange(0, n as int) =~= path@);
        assert(segs@.map_values(|x: String| x@) + spec_segments(path@) =~= spec_segments(path@));
    }
    loop
        invariant
            pos <= n,
            n == path@.len(),
            segs@.map_values(|x: String| x@) + spec_segments(path@.subrange(pos as int, n as int))
                == spec_segments(path@),
        decreases n - pos,
    {
        let ghost rem = path@.subrange(pos as int, n as int);
        match find_slash(path, pos) {
            Option::Some(i) => {
                proof {
                    assert forall|j: int| 0 <= j < i - pos implies rem[j] != '/' by {
                        assert(rem[j] == path@[pos + j]);
                    }
                    assert(rem[i - pos] == path@[i as int]);
                    lemma_first_slash_step(rem, (i - pos) as int);
                }
                let seg = String::from_str(path.substring_char(pos, i));
                let ghost prev = segs@.map_values(|x: String| x@);
                segs.push(seg);
                proof {
                    assert(seg@ =~= rem.subrange(0, i - pos));
                    assert(segs@.map_values(|x: String| x@) =~= prev.push(seg@));
                    assert(rem.subrange(i - pos + 1, rem.len() as int) =~= path@.subrange(
                        i + 1,
                        n as int,
                    ));
                    assert(prev.push(seg@) + spec_segments(path@.subrange(i + 1, n as int))
                        =~= prev + (seq![seg@] + spec_segments(path@.subrange(i + 1, n as int))));
                }
                pos = i + 1;
            },
            Option::None => {
                proof {
                    assert forall|j: int| 0 <= j < rem.len() implies rem[j] != '/' by {
                        assert(rem[j] == path@[pos + j]);
                    }
                    lemma_first_slash_none(rem);
                }
                let seg = String::from_str(path.substring_char(pos, n));
                let ghost prev = segs@.map_values(|x: String| x@);
                segs.push(seg);
                proof {
                    assert(seg@ =~= rem);
                    assert(segs@.map_values(|x: String| x@) =~= prev.push(seg@));
                    assert(prev.push(seg@) =~= prev + seq![seg@]);
                }
                return segs;
            },
        }
    }
}

pub(crate) fn find_slash(path: &str, pos: usize) -> (r: Option<usize>)
    requires
        pos <= path@.len(),
    ensures
        match r {
            Option::Some(i) => pos <= i < path@.len() && path@[i as int] == '/' && (forall|j: int|
                pos <= j < i ==> path@[j] != '/'),
            Option::None => forall|j: int| pos <= j < path@.len() ==> path@[j] != '/',
        },
{
    let n = path.unicode_len();
    let mut i: usize = pos;
    while i < n
        invariant
            pos <= i <= n,
            n == path@.len(),
            forall|j: int| pos <= j < i ==> path@[j] != '/',
        decreases n - i,
    {
        if path.get_char(i) == '/' {
            return Some(i);
        }
        i += 1;
    }
    None
}

pub(crate) proof fn lemma_first_slash_step(rem: Seq<char>, k: int)
    requires
        0 <= k < rem.len(),
        rem[k] == '/',
        forall|j: int| 0 <= j < k ==> rem[j] != '/',
    ensures
        first_slash(rem, 0) == k,
        spec_segments(rem) == seq![rem.subrange(0, k)] + spec_segments(
            rem.subrange(k + 1, rem.len() as int),
        ),
{
    lemma_first_slash_at(rem, 0, k);
}

pub(crate) proof fn lemma_first_slash_at(rem: Seq<char>, pos: int, k: int)
    requires
        0 <= pos <= k < rem.len(),
        rem[k] == '/',
        forall|j: int| pos <= j < k ==> rem[j] != '/',
    ensures
        first_slash(rem, pos) == k,
    decreases k - pos,
{
    if pos < k {
        lemma_first_slash_at(rem, pos + 1, k);
    }
}

pub(crate) proof fn lemma_first_slash_none(rem: Seq<char>)
    requires
        forall|j: int| 0 <= j < rem.len() ==> rem[j] != '/',
    ensures
        first_slash(rem, 0) == rem.len(),
        spec_segments(rem) == seq![rem],
{
    lemma_first_slash_none_from(rem, 0);
}

proof fn lemma_first_slash_none_from(rem: Seq<char>, pos: int)
    requires
        0 <= pos <= rem.len(),
        forall|j: int| pos <= j < rem.len() ==> rem[j] != '/',
    ensures
        first_slash(rem, pos) == rem.len(),
    decreases rem.len() - pos,
{
    if pos < rem.len() {
        lemma_first_slash_none_from(rem, pos + 1);
    }
}

/// Sanitizes a filesystem path: keeps a leading `/` and the normal parts,
/// drops every empty, `.` and `..` part.
pub fn sanitize_path(path: &str) -> (r: String)
    ensures
        r@ == spec_sanitize(path@),
{
    let segs = split_segments(path);
    let ghost pred = |seg: Seq<char>| is_normal(seg);
    let mut kept: Vec<String> = Vec::new();
    let n = segs.len();
    let mut i: usize = 0;
    proof {
        reveal(Seq::filter);
        assert(segs@.map_values(|x: String| x@).take(0) =~= Seq::<Seq<char>>::empty());
        assert(kept@.map_values(|x: String| x@) =~= Seq::<Seq<char>>::empty().filter(pred));
    }
    while i < n
        invariant
            i <= n,
            n == segs@.len(),
            kept@.map_values(|x: String| x@) == segs@.map_values(|x: String| x@).take(
                i as int,
            ).filter(|seg: Seq<char>| is_normal(seg)),
        decreases n - i,
    {
        let s = &segs[i];
        let keep = s.unicode_len() > 0 && !str_eq(s.as_str(), ".") && !str_eq(s.as_str(), "..");
        let ghost views = segs@.map_values(|x: String| x@);
        proof {
            reveal(Seq::filter);
            assert(views.take(i + 1).drop_last() =~= views.take(i as int));
            assert(views.take(i + 1).last() == views[i as int]);
        }
        if keep {
            let ghost prev = kept@.map_values(|x: String| x@);
            kept.push(String::from_str(s.as_str()));
            proof {
                assert(kept@.map_values(|x: String| x@) =~= prev.push(views[i as int]));
            }
        }
        i += 1;
    }
    proof {
        assert(segs@.map_values(|x: String| x@).take(n as int) =~= segs@.map_values(
            |x: String| x@,
        ));
    }
    // join the kept parts
    let mut out: String;
    let rooted = path.unicode_len() > 0 && path.get_char(0) == '/';
    if rooted {
        out = String::from_str("/");
    } else {
        out = String::new();
    }
    let ghost flag = out@;
    let kn = kept.len();
    let mut j: usize = 0;
    proof {
        assert(kept@.map_values(|x: String| x@).take(0) =~= Seq::<Seq<char>>::empty());
    }
    while j < kn
        invariant
            j <= kn,
            kn == kept@.len(),
            flag == (if path@.len() > 0 && path@[0] == '/' {
                "/"@
            } else {
                Seq::<char>::empty()
            }),
            out@ == flag + spec_join(kept@.map_values(|x: String| x@).take(j as int)),
        decreases kn - j,
    {
        let ghost views = kept@.map_values(|x: String| x@);
        proof {
            assert(views.take(j + 1) =~= views.take(j as int).push(views[j as int]));
            lemma_join_push(views.take(j as int), views[j as int]);
        }
        if j > 0 {
            out.append("/");
        }
        out.append(kept[j].as_str());
        j += 1;
    }
    proof {
        assert(kept@.map_values(|x: String| x@).take(kn as int) =~= kept@.map_values(
            |x: String| x@,
        ));
        assert(out@ =~= spec_sanitize(path@));
    }
    out
}


/// What the file server does when a directory has no index page.
pub enum DirFallback {
    RedirectSlash { location: String },
    ListDir { dir: String },
    Forbidden,
}

/// The file server's next step, decided from the filesystem facts the
/// caller probed about the sanitized path.
pub enum FileDecision {
    /// Open and stream this file with the given status; a failed open is
    /// answered `404`.
    ServeFileAt { path: String, status: u16 },
    /// Try the directory's index page; when it does not open, fall back.
    ServeIndexOr { index_path: String, on_missing: DirFallback },
}

/// Resolves a file request. The caller reports whether the sanitized path
/// names a file or a directory; the decision then follows the
/// single-page-application fallback, the index page, the trailing-slash
/// redirect, the listing, or the plain file, in that order.
pub fn serve_file(
    location: &str,
    new_path: &str,
    source_url: &str,
    fallback_file: &Option<String>,
    is_fallback_404: bool,
    forbidden_dir: bool,
    is_file: bool,
    is_dir: bool,
) -> (r: FileDecision)
    ensures
        ({
            let path = spec_sanitize(spec_remove_last_slash(location@) + new_path@);
            match fallback_file {
                Option::Some(fb) => r matches FileDecision::ServeFileAt { path: p, status }
                    && (if is_file {
                    p@ == path && status == 200
                } else {
                    p@ == fb@ && status == (if is_fallback_404 {
                        404u16
                    } else {
                        200u16
                    })
                }),
                Option::None => {
                    if is_dir {
                        r matches FileDecision::ServeIndexOr { index_path, on_missing }
                            && index_path@ == path + "/index.html"@ && (if !(source_url@.len() > 0
                            && source_url@.last() == '/') {
                            on_missing matches DirFallback::RedirectSlash { location: loc }
                                && loc@ == source_url@ + "/"@
                        } else if !forbidden_dir {
                            on_missing matches DirFallback::ListDir { dir } && dir@ == path
                        } else {
                            on_missing is Forbidden
                        })
                    } else {
                        r matches FileDecision::ServeFileAt { path: p, status } && p@ == path
                            && status == 200
                    }
                },
            }
        }),
{
    let mut full = String::from_str(remove_last_slash(location));
    full.append(new_path);
    let file_path = sanitize_path(full.as_str());
    match fallback_file {
        Option::Some(fb) => {
            if is_file {
                FileDecision::ServeFileAt { path: file_path, status: 200 }
            } else {
                FileDecision::ServeFileAt {
                    path: String::from_str(fb.as_str()),
                    status: if is_fallback_404 {
                        404
                    } else {
                        200
                    },
                }
            }
        },
        Option::None => {
            if is_dir {
                let mut index_path = String::from_str(file_path.as_str());
                index_path.append("/index.html");
                let slash_end = {
                    let n = source_url.unicode_len();
                    n > 0 && source_url.get_char(n - 1) == '/'
                };
                let on_missing = if !slash_end {
                    let mut loc = String::from_str(source_url);
                    loc.append("/");
                    DirFallback::RedirectSlash { location: loc }
                } else if !forbidden_dir {
                    DirFallback::ListDir { dir: file_path }
                } else {
                    DirFallback::Forbidden
                };
                FileDecision::ServeIndexOr { index_path, on_missing }
            } else {
                FileDecision::ServeFileAt { path: file_path, status: 200 }
            }
        },
    }
}

/// Relies on mime_guess::from_path: the guessed type depends on the path
/// alone; an unknown extension falls back to application/octet-stream.
pub uninterp spec fn mime_of(path: Seq<char>) -> Seq<char>;

/// Relies on mime_guess::from_path with its octet-stream fallback.
#[verifier::external_body]
fn guess_mime(path: &str) -> (r: String)
    ensures
        r@ == mime_of(path@),
{
    mime_guess::from_path(path).first_or_octet_stream().to_string()
}

/// The response head for a streamed file: `200` with the guessed content
/// type; the caller streams the bytes as the body.
pub fn open_file_headers(path: &str) -> (r: (u16, Vec<(String, String)>))
    ensures
        r.0 == 200,
        r.1@.len() == 1,
        r.1@[0].0@ == "Content-Type"@,
        r.1@[0].1@ == mime_of(path@),
{
    let mime = guess_mime(path);
    let mut headers: Vec<(String, String)> = Vec::new();
    headers.push((String::from_str("Content-Type"), mime));
    (200, headers)
}

/// One directory entry, as the caller read it from the filesystem.
pub struct DirEntryInfo {
    pub name: String,
    pub is_dir: bool,
    pub size: u64,
    pub modified_unix: i64,
}

/// Relies on the time crate: the `DD-Mon-YYYY HH:MM:SS` rendering of a
/// Unix timestamp, absent when the timestamp is out of the representable
/// range; it depends on the timestamp alone.
pub uninterp spec fn dir_date_of(secs: int) -> Option<Seq<char>>;

/// Relies on time's OffsetDateTime::from_unix_timestamp and its formatting
/// machinery for the listing's last-modified column.
#[verifier::external_body]
fn format_dir_date(secs: i64) -> (r: Option<String>)
    ensures
        match dir_date_of(secs as int) {
            Option::Some(d) => r matches Option::Some(x) && x@ == d,
            Option::None => r is None,
        },
{
    let dt = time::OffsetDateTime::from_unix_timestamp(secs).ok()?;
    let format = time::format_description::parse(
        "[day]-[month repr:short]-[year] [hour]:[minute]:[second]",
    ).ok()?;
    dt.format(&format).ok()
}

/// The last-modified column: the formatted timestamp, or a dash when it
/// cannot be rendered.
pub open spec fn spec_entry_date(secs: int) -> Seq<char> {
    match dir_date_of(secs) {
        Option::Some(d) => d,
        Option::None => "-"@,
    }
}

/// One listing row: icon and link, last modified, size.
pub open spec fn spec_entry_row(e: DirEntryInfo) -> Seq<char> {
    "<tr><td>"@ + (if e.is_dir {
        "D "@
    } else {
        "F "@
    }) + "<a href=\""@ + e.name@ + "\">"@ + e.name@ + "</a></td><td>"@ + spec_entry_date(
        e.modified_unix as int,
    ) + "</td><td>"@ + (if e.is_dir {
        "-"@
    } else {
        crate::text::spec_format_size(e.size as nat)
    }) + "</td></tr>"@
}

/// The rows of a listing, one line each.
pub open spec fn spec_rows(entries: Seq<DirEntryInfo>) -> Seq<char>
    decreases entries.len(),
{
    if entries.len() == 0 {
        Seq::empty()
    } else {
        spec_rows(entries.drop_last()) + "\n"@ + spec_entry_row(entries.last())
    }
}

/// The listing page head for a directory path.
pub open spec fn spec_listing_head(current_path: Seq<char>) -> Seq<char> {
    "<html><head><meta charset=\"UTF-8\"><title>Index of "@ + current_path
        + "</title><style>table {border-collapse: collapse;} tr {border-bottom: 1px solid #cfcfcf;} th, td {padding: 6px 0;} p {margin-top: 20px; color: grey;}</style></head><body style=\"margin-top: 25px; font-family: sans-serif;\"><h1>Index of "@
        + current_path
        + "/</h1><hr/><table style=\"width:100%; text-align: left; table-layout: fixed;\"><tr><th>Name</th><th>Last modified</th><th>Size</th></tr>"@
}

/// The row linking back to the parent directory.
pub open spec fn spec_parent_row() -> Seq<char> {
    "<tr><td><a href=\"..\">..</a></td><td>-</td><td>-</td></tr>"@
}

/// The whole listing page.
pub open spec fn spec_listing_html(current_path: Seq<char>, entries: Seq<DirEntryInfo>) -> Seq<
    char,
> {
    spec_listing_head(current_path) + (if current_path.len() > 0 {
        "\n"@ + spec_parent_row()
    } else {
        Seq::<char>::empty()
    }) + spec_rows(entries) + "\n"@ + "</table><p>"@ + "quark v.1.0.0"@ + "</p></body></html>"@
}

/// One rendered listing row.
fn entry_row(e: &DirEntryInfo) -> (r: String)
    ensures
        r@ == spec_entry_row(*e),
{
    let mut row = String::from_str("<tr><td>");
    if e.is_dir {
        row.append("D ");
    } else {
        row.append("F ");
    }
    row.append("<a href=\"");
    row.append(e.name.as_str());
    row.append("\">");
    row.append(e.name.as_str());
    row.append("</a></td><td>");
    match format_dir_date(e.modified_unix) {
        Option::Some(d) => row.append(d.as_str()),
        Option::None => row.append("-"),
    }
    row.append("</td><td>");
    if e.is_dir {
        row.append("-");
    } else {
        let size = crate::text::format_size(e.size);
        row.append(size.as_str());
    }
    row.append("</td></tr>");
    row
}

/// Renders the directory listing: a row per entry with its name, its last
/// modified time and its human-readable size, a parent link when not at
/// the top, and the product footer.
#[verifier::rlimit(100)]
pub fn display_directory_content(current_path: &str, entries: &Vec<DirEntryInfo>) -> (r:
    crate::http_response::HttpResponsePlan)
    ensures
        r.status == 200,
        r.headers@.len() == 0,
        r.body@ == spec_listing_html(current_path@, entries@),
{
    let mut html = String::from_str("<html><head><meta charset=\"UTF-8\"><title>Index of ");
    html.append(current_path);
    html.append(
        "</title><style>table {border-collapse: collapse;} tr {border-bottom: 1px solid #cfcfcf;} th, td {padding: 6px 0;} p {margin-top: 20px; color: grey;}</style></head><body style=\"margin-top: 25px; font-family: sans-serif;\"><h1>Index of ",
    );
    html.append(current_path);
    html.append(
        "/</h1><hr/><table style=\"width:100%; text-align: left; table-layout: fixed;\"><tr><th>Name</th><th>Last modified</th><th>Size</th></tr>",
    );
    if current_path.unicode_len() > 0 {
        html.append("\n");
        html.append("<tr><td><a href=\"..\">..</a></td><td>-</td><td>-</td></tr>");
    }
    let n = entries.len();
    let mut i: usize = 0;
    proof {
        assert(html@ =~= spec_listing_head(current_path@) + (if current_path@.len() > 0 {
            "\n"@ + spec_parent_row()
        } else {
            Seq::<char>::empty()
        }) + spec_rows(entries@.take(0)));
    }
    while i < n
        invariant
            i <= n,
            n == entries@.len(),
            html@ == spec_listing_head(current_path@) + (if current_path@.len() > 0 {
                "\n"@ + spec_parent_row()
            } else {
                Seq::<char>::empty()
            }) + spec_rows(entries@.take(i as int)),
        decreases n - i,
    {
        let e = &entries[i];
        html.append("\n");
        let row = entry_row(e);
        html.append(row.as_str());
        proof {
            assert(entries@.take(i + 1).drop_last() =~= entries@.take(i as int));
            assert(entries@.take(i + 1).last() == entries@[i as int]);
            assert(html@ =~= spec_listing_head(current_path@) + (if current_path@.len() > 0 {
                "\n"@ + spec_parent_row()
            } else {
                Seq::<char>::empty()
            }) + spec_rows(entries@.take(i + 1)));
        }
        i += 1;
    }
    html.append("\n");
    html.append("</table><p>");
    let version = crate::text::get_project_version();
    html.append(version.as_str());
    html.append("</p></body></html>");
    proof {
        assert(entries@.take(n as int) =~= entries@);
        assert(html@ =~= spec_listing_html(current_path@, entries@));
    }
    crate::http_response::HttpResponsePlan { status: 200, headers: Vec::new(), body: html }
}


} // verus!

//! String helpers shared by the routing table, the router and the file server.
use vstd::prelude::*;

verus! {

/// `pre` is a prefix of `s`.
pub open spec fn is_prefix_of(pre: Seq<char>, s: Seq<char>) -> bool {
    pre.len() <= s.len() && s.subrange(0, pre.len() as int) == pre
}

pub fn str_starts_with(s: &str, pre: &str) -> (r: bool)
    ensures
        r == is_prefix_of(pre@, s@),
{
    let n = pre.unicode_len();
    if n > s.unicode_len() {
        assert(!is_prefix_of(pre@, s@));
        return false;
    }
    let mut i: usize = 0;
    while i < n
        invariant
            i <= n,
            n == pre@.len(),
            n <= s@.len(),
            forall|j: int| 0 <= j < i ==> s@[j] == pre@[j],
        decreases n - i,
    {
        if s.get_char(i) != pre.get_char(i) {
            assert(!is_prefix_of(pre@, s@));
            return false;
        }
        i += 1;
    }
    assert(s@.subrange(0, n as int) =~= pre@);
    true
}

pub fn str_eq(a: &str, b: &str) -> (r: bool)
    ensures
        r == (a@ == b@),
{
    let n = a.unicode_len();
    if n != b.unicode_len() {
        return false;
    }
    let mut i: usize = 0;
    while i < n
        invariant
            i <= n,
            n == a@.len() == b@.len(),
            forall|j: int| 0 <= j < i ==> a@[j] == b@[j],
        decreases n - i,
    {
        if a.get_char(i) != b.get_char(i) {
            return false;
        }
        i += 1;
    }
    assert(a@ =~= b@);
    true
}

/// `s` without one trailing `/`, if it has one.
pub open spec fn spec_remove_last_slash(s: Seq<char>) -> Seq<char> {
    if s.len() > 0 && s.last() == '/' {
        s.drop_last()
    } else {
        s
    }
}

/// Drops one trailing `/`, if any.
pub fn remove_last_slash(path: &str) -> (r: &str)
    ensures
        r@ == spec_remove_last_slash(path@),
{
    let n = path.unicode_len();
    if n > 0 && path.get_char(n - 1) == '/' {
        let r = path.substring_char(0, n - 1);
        assert(r@ =~= path@.drop_last());
        r
    } else {
        path
    }
}

/// Index of the first `?` or `#` in `s` at or past `pos`, or the length of `s`.
pub closed spec fn first_query_or_fragment(s: Seq<char>, pos: int) -> int
    decreases s.len() - pos when 0 <= pos <= s.len()
{
    if pos >= s.len() {
        s.len() as int
    } else if s[pos] == '?' || s[pos] == '#' {
        pos
    } else {
        first_query_or_fragment(s, pos + 1)
    }
}

proof fn lemma_first_query_or_fragment_bounds(s: Seq<char>, pos: int)
    requires
        0 <= pos <= s.len(),
    ensures
        pos <= first_query_or_fragment(s, pos) <= s.len(),
    decreases s.len() - pos,
{
    if pos < s.len() && !(s[pos] == '?' || s[pos] == '#') {
        lemma_first_query_or_fragment_bounds(s, pos + 1);
    }
}

/// The path up to, but not including, the first `?` or `#`.
pub fn get_base_path(path: &str) -> (r: &str)
    ensures
        r@ == path@.subrange(0, first_query_or_fragment(path@, 0)),
{
    let n = path.unicode_len();
    let mut i: usize = 0;
    proof {
        lemma_first_query_or_fragment_bounds(path@, 0);
    }
    while i < n
        invariant
            0 <= i <= n,
            n == path@.len(),
            first_query_or_fragment(path@, 0) == first_query_or_fragment(path@, i as int),
        decreases n - i,
    {
        let c = path.get_char(i);
        if c == '?' || c == '#' {
            return path.substring_char(0, i);
        }
        i += 1;
    }
    let r = path.substring_char(0, n);
    assert(r@ =~= path@);
    r
}

/// Strict lexicographic order on character sequences, by code point.
pub open spec fn lex_lt(a: Seq<char>, b: Seq<char>) -> bool
    decreases a.len(),
{
    if b.len() == 0 {
        false
    } else if a.len() == 0 {
        true
    } else if (a[0] as int) < (b[0] as int) {
        true
    } else if (a[0] as int) > (b[0] as int) {
        false
    } else {
        lex_lt(a.drop_first(), b.drop_first())
    }
}

/// `lex_lt` is trichotomous: sequences that neither precede nor follow
/// one another are equal.
pub proof fn lemma_lex_connected(a: Seq<char>, b: Seq<char>)
    requires
        !lex_lt(a, b),
        !lex_lt(b, a),
    ensures
        a == b,
    decreases a.len(),
{
    if a.len() == 0 || b.len() == 0 {
        assert(a =~= b);
    } else {
        assert(a[0] as int == b[0] as int);
        assert(a[0] == b[0]);
        lemma_lex_connected(a.drop_first(), b.drop_first());
        assert(a =~= seq![a[0]] + a.drop_first());
        assert(b =~= seq![b[0]] + b.drop_first());
        assert(a == b);
    }
}

/// `lex_lt` is transitive.
pub proof fn lemma_lex_trans(a: Seq<char>, b: Seq<char>, c: Seq<char>)
    requires
        lex_lt(a, b),
        lex_lt(b, c),
    ensures
        lex_lt(a, c),
    decreases a.len(),
{
    if a.len() != 0 && b.len() != 0 && c.len() != 0 && (a[0] as int) == (b[0] as int) && (b[0]
        as int) == (c[0] as int) {
        lemma_lex_trans(a.drop_first(), b.drop_first(), c.drop_first());
    }
}

pub fn str_lt(a: &str, b: &str) -> (r: bool)
    ensures
        r == lex_lt(a@, b@),
{
    let na = a.unicode_len();
    let nb = b.unicode_len();
    let mut i: usize = 0;
    assert(a@.skip(0) =~= a@);
    assert(b@.skip(0) =~= b@);
    loop
        invariant
            i <= na,
            i <= nb,
            na == a@.len(),
            nb == b@.len(),
            lex_lt(a@, b@) == lex_lt(a@.skip(i as int), b@.skip(i as int)),
        decreases na - i,
    {
        if i >= nb {
            assert(b@.skip(i as int).len() == 0);
            return false;
        }
        if i >= na {
            assert(a@.skip(i as int).len() == 0);
            return true;
        }
        let ca = a.get_char(i);
        let cb = b.get_char(i);
        if (ca as u32) < (cb as u32) {
            return true;
        }
        if (ca as u32) > (cb as u32) {
            return false;
        }
        proof {
            assert(a@.skip(i as int).drop_first() =~= a@.skip(i + 1));
            assert(b@.skip(i as int).drop_first() =~= b@.skip(i + 1));
        }
        i += 1;
    }
}

/// First occurrence of `${` in `s` at or past `pos`.
pub closed spec fn find_var_start(s: Seq<char>, pos: int) -> Option<int>
    decreases s.len() - pos when 0 <= pos
{
    if pos + 2 > s.len() {
        None
    } else if s[pos] == '$' && s[pos + 1] == '{' {
        Some(pos)
    } else {
        find_var_start(s, pos + 1)
    }
}

/// First occurrence of `}` in `s` at or past `pos`.
pub closed spec fn find_close(s: Seq<char>, pos: int) -> Option<int>
    decreases s.len() - pos when 0 <= pos
{
    if pos >= s.len() {
        None
    } else if s[pos] == '}' {
        Some(pos)
    } else {
        find_close(s, pos + 1)
    }
}

proof fn lemma_find_var_start_bounds(s: Seq<char>, pos: int)
    requires
        0 <= pos,
        find_var_start(s, pos) is Some,
    ensures
        pos <= find_var_start(s, pos).unwrap(),
        find_var_start(s, pos).unwrap() + 2 <= s.len(),
        s[find_var_start(s, pos).unwrap()] == '$',
        s[find_var_start(s, pos).unwrap() + 1] == '{',
    decreases s.len() - pos,
{
    if !(pos + 2 > s.len()) && !(s[pos] == '$' && s[pos + 1] == '{') {
        lemma_find_var_start_bounds(s, pos + 1);
    }
}

proof fn lemma_find_close_bounds(s: Seq<char>, pos: int)
    requires
        0 <= pos,
        find_close(s, pos) is Some,
    ensures
        pos <= find_close(s, pos).unwrap() < s.len(),
        s[find_close(s, pos).unwrap()] == '}',
    decreases s.len() - pos,
{
    if pos < s.len() && s[pos] != '}' {
        lemma_find_close_bounds(s, pos + 1);
    }
}

/// The `${name}` variable names in `s`, left to right, starting the scan
/// at `pos`.
pub closed spec fn spec_extract_vars(s: Seq<char>, pos: int) -> Seq<Seq<char>>
    decreases s.len() - pos when 0 <= pos via spec_extract_vars_decreases
{
    match find_var_start(s, pos) {
        Option::None => seq![],
        Option::Some(start) => match find_close(s, start) {
            Option::None => seq![],
            Option::Some(end) => seq![s.subrange(start + 2, end)] + spec_extract_vars(
                s,
                end + 1,
            ),
        },
    }
}

#[via_fn]
proof fn spec_extract_vars_decreases(s: Seq<char>, pos: int) {
    if 0 <= pos {
        if let Option::Some(start) = find_var_start(s, pos) {
            lemma_find_var_start_bounds(s, pos);
            if let Option::Some(end) = find_close(s, start) {
                lemma_find_close_bounds(s, start);
            }
        }
    }
}

fn find_var_start_exec(s: &str, pos: usize) -> (r: Option<usize>)
    requires
        pos <= s@.len(),
    ensures
        match r {
            Option::Some(i) => find_var_start(s@, pos as int) == Option::Some(i as int),
            Option::None => find_var_start(s@, pos as int) is None,
        },
{
    let n = s.unicode_len();
    let mut i: usize = pos;
    while i < n && i + 1 < n
        invariant
            pos <= i <= n,
            n == s@.len(),
            find_var_start(s@, pos as int) == find_var_start(s@, i as int),
        decreases n - i,
    {
        if s.get_char(i) == '$' && s.get_char(i + 1) == '{' {
            return Some(i);
        }
        i += 1;
    }
    None
}

fn find_close_exec(s: &str, pos: usize) -> (r: Option<usize>)
    requires
        pos <= s@.len(),
    ensures
        match r {
            Option::Some(i) => find_close(s@, pos as int) == Option::Some(i as int),
            Option::None => find_close(s@, pos as int) is None,
        },
{
    let n = s.unicode_len();
    let mut i: usize = pos;
    while i < n
        invariant
            pos <= i <= n,
            n == s@.len(),
            find_close(s@, pos as int) == find_close(s@, i as int),
        decreases n - i,
    {
        if s.get_char(i) == '}' {
            return Some(i);
        }
        i += 1;
    }
    None
}

/// Collects the `${name}` variable names that occur in `text`, left to right.
pub fn extract_vars_from_string(text: &str) -> (r: Vec<String>)
    ensures
        r@.map_values(|k: String| k@) == spec_extract_vars(text@, 0),
{
    let n = text.unicode_len();
    let mut keys: Vec<String> = Vec::new();
    let mut pos: usize = 0;
    assert(keys@.map_values(|k: String| k@) + spec_extract_vars(text@, 0) =~= spec_extract_vars(
        text@,
        0,
    ));
    loop
        invariant
            pos <= n,
            n == text@.len(),
            keys@.map_values(|k: String| k@) + spec_extract_vars(text@, pos as int)
                == spec_extract_vars(text@, 0),
        decreases n - pos,
    {
        let start = match find_var_start_exec(text, pos) {
            Some(st) => st,
            None => {
                proof {
                    assert(spec_extract_vars(text@, pos as int) =~= Seq::<Seq<char>>::empty());
                    assert(keys@.map_values(|k: String| k@) + Seq::<Seq<char>>::empty()
                        =~= keys@.map_values(|k: String| k@));
                }
                return keys;
            },
        };
        proof {
            lemma_find_var_start_bounds(text@, pos as int);
        }
        let end = match find_close_exec(text, start) {
            Some(e) => e,
            None => {
                proof {
                    assert(spec_extract_vars(text@, pos as int) =~= Seq::<Seq<char>>::empty());
                    assert(keys@.map_values(|k: String| k@) + Seq::<Seq<char>>::empty()
                        =~= keys@.map_values(|k: String| k@));
                }
                return keys;
            },
        };
        proof {
            lemma_find_close_bounds(text@, start as int);
        }
        let key = String::from_str(text.substring_char(start + 2, end));
        let ghost prev = keys@.map_values(|k: String| k@);
        keys.push(key);
        pos = end + 1;
        proof {
            assert(keys@.map_values(|k: String| k@) =~= prev.push(key@));
            assert(prev.push(key@) + spec_extract_vars(text@, pos as int) =~= prev + (seq![key@]
                + spec_extract_vars(text@, pos as int)));
        }
    }
}


/// First occurrence of `pat` in `s` at or past `pos`.
pub closed spec fn find_pat(s: Seq<char>, pat: Seq<char>, pos: int) -> Option<int>
    decreases s.len() - pos when 0 <= pos && 1 <= pat.len()
{
    if pos + pat.len() > s.len() {
        None
    } else if s.subrange(pos, pos + pat.len()) == pat {
        Some(pos)
    } else {
        find_pat(s, pat, pos + 1)
    }
}

pub proof fn lemma_find_pat_bounds(s: Seq<char>, pat: Seq<char>, pos: int)
    requires
        0 <= pos,
        1 <= pat.len(),
        find_pat(s, pat, pos) is Some,
    ensures
        pos <= find_pat(s, pat, pos).unwrap(),
        find_pat(s, pat, pos).unwrap() + pat.len() <= s.len(),
        s.subrange(
            find_pat(s, pat, pos).unwrap(),
            find_pat(s, pat, pos).unwrap() + pat.len(),
        ) == pat,
    decreases s.len() - pos,
{
    if !(pos + pat.len() > s.len()) && s.subrange(pos, pos + pat.len()) != pat {
        lemma_find_pat_bounds(s, pat, pos + 1);
    }
}

pub(crate) fn find_pat_exec(s: &str, pat: &str, pos: usize) -> (r: Option<usize>)
    requires
        pos <= s@.len(),
        1 <= pat@.len(),
    ensures
        match r {
            Option::Some(i) => find_pat(s@, pat@, pos as int) == Option::Some(i as int),
            Option::None => find_pat(s@, pat@, pos as int) is None,
        },
{
    let n = s.unicode_len();
    let m = pat.unicode_len();
    let mut i: usize = pos;
    while i < n && n - i >= m
        invariant
            pos <= i <= n,
            n == s@.len(),
            m == pat@.len(),
            1 <= m,
            find_pat(s@, pat@, pos as int) == find_pat(s@, pat@, i as int),
        decreases n - i,
    {
        let sub = s.substring_char(i, i + m);
        if str_eq(sub, pat) {
            return Some(i);
        }
        i += 1;
    }
    None
}

/// `s` with every occurrence of `pat` replaced by `val`, scanning left to
/// right and never rescanning the replacement.
pub closed spec fn spec_replace_all(s: Seq<char>, pat: Seq<char>, val: Seq<char>) -> Seq<char>
    decreases s.len() when 1 <= pat.len() via spec_replace_all_decreases
{
    match find_pat(s, pat, 0) {
        Option::None => s,
        Option::Some(i) => s.subrange(0, i) + val + spec_replace_all(
            s.subrange(i + pat.len(), s.len() as int),
            pat,
            val,
        ),
    }
}

#[via_fn]
proof fn spec_replace_all_decreases(s: Seq<char>, pat: Seq<char>, val: Seq<char>) {
    if 1 <= pat.len() {
        if let Option::Some(i) = find_pat(s, pat, 0) {
            lemma_find_pat_bounds(s, pat, 0);
        }
    }
}

pub fn replace_all(s: &str, pat: &str, val: &str) -> (r: String)
    requires
        pat@.len() >= 1,
    ensures
        r@ == spec_replace_all(s@, pat@, val@),
    decreases s@.len(),
{
    let n = s.unicode_len();
    match find_pat_exec(s, pat, 0) {
        Option::None => String::from_str(s),
        Option::Some(i) => {
            proof {
                lemma_find_pat_bounds(s@, pat@, 0);
            }
            let head = s.substring_char(0, i);
            let tail = s.substring_char(i + pat.unicode_len(), n);
            let rest = replace_all(tail, pat, val);
            let mut out = String::from_str(head);
            out.append(val);
            out.append(rest.as_str());
            out
        },
    }
}

/// Index of the last `/` in `s`, if any.
pub closed spec fn last_slash(s: Seq<char>) -> Option<int>
    decreases s.len(),
{
    if s.len() == 0 {
        None
    } else if s.last() == '/' {
        Some(s.len() - 1)
    } else {
        last_slash(s.drop_last())
    }
}

proof fn lemma_last_slash_bounds(s: Seq<char>)
    requires
        last_slash(s) is Some,
    ensures
        0 <= last_slash(s).unwrap() < s.len(),
        s[last_slash(s).unwrap()] == '/',
    decreases s.len(),
{
    if s.len() != 0 && s.last() != '/' {
        lemma_last_slash_bounds(s.drop_last());
    }
}

/// The directory-and-file split of `path`, at its last `/`.
pub open spec fn spec_path_and_file(path: Seq<char>, is_file: bool) -> (Seq<char>, Option<
    Seq<char>,
>) {
    if !is_file {
        (path, Option::None)
    } else {
        match last_slash(path) {
            Option::None => (Seq::<char>::empty(), Option::Some(path)),
            Option::Some(i) => (
                if i == 0 {
                    "/"@
                } else {
                    path.subrange(0, i)
                },
                Option::Some(path.subrange(i + 1, path.len() as int)),
            ),
        }
    }
}

/// Splits a path that names a file into its directory and its file name,
/// at the last `/`; a path that does not gets back whole, with no file
/// name. A lone leading `/` stands for the root directory.
pub fn get_path_and_file(path: &str, is_file: bool) -> (r: (String, Option<String>))
    ensures
        r.0@ == spec_path_and_file(path@, is_file).0,
        match spec_path_and_file(path@, is_file).1 {
            Option::Some(f) => r.1 matches Option::Some(rf) && rf@ == f,
            Option::None => r.1 is None,
        },
{
    if !is_file {
        return (String::from_str(path), None);
    }
    let n = path.unicode_len();
    let mut i: usize = n;
    assert(path@.subrange(0, n as int) =~= path@);
    while i > 0
        invariant
            is_file,
            i <= n,
            n == path@.len(),
            last_slash(path@) == last_slash(path@.subrange(0, i as int)),
        decreases i,
    {
        proof {
            assert(path@.subrange(0, i as int).drop_last() =~= path@.subrange(0, i - 1));
        }
        if path.get_char(i - 1) == '/' {
            proof {
                assert(path@.subrange(0, i as int).last() == path@[i - 1]);
            }
            let parent = if i == 1 {
                String::from_str("/")
            } else {
                String::from_str(path.substring_char(0, i - 1))
            };
            let file = String::from_str(path.substring_char(i, n));
            return (parent, Some(file));
        }
        i -= 1;
    }
    proof {
        assert(path@.subrange(0, 0) =~= Seq::<char>::empty());
        let f = path@.subrange(0, path@.len() as int);
        assert(f =~= path@);
    }
    (String::new(), Some(String::from_str(path)))
}

/// Relies on alloc's String::push: appends exactly the given character.
pub assume_specification[ String::push ](s: &mut String, c: char)
    ensures
        final(s)@ == old(s)@.push(c),
;

pub const DEC_DIGITS: [char; 10] = ['0', '1', '2', '3', '4', '5', '6', '7', '8', '9'];

/// The decimal digits of `n`, most significant first.
pub closed spec fn spec_dec(n: nat) -> Seq<char>
    decreases n,
{
    if n < 10 {
        seq![DEC_DIGITS@[n as int]]
    } else {
        spec_dec(n / 10).push(DEC_DIGITS@[(n % 10) as int])
    }
}

pub fn u64_to_dec(n: u64) -> (r: String)
    ensures
        r@ == spec_dec(n as nat),
    decreases n,
{
    if n < 10 {
        let mut s = String::new();
        s.push(DEC_DIGITS[n as usize]);
        assert(s@ =~= spec_dec(n as nat));
        s
    } else {
        let mut s = u64_to_dec(n / 10);
        s.push(DEC_DIGITS[(n % 10) as usize]);
        s
    }
}

pub const KB: u64 = 1024;

pub const MB: u64 = 1048576;

pub const GB: u64 = 1073741824;

pub const TB: u64 = 1099511627776;

/// `size / unit` in tenths, rounded half up.
pub open spec fn spec_size_tenths(size: nat, unit: nat) -> nat
    recommends
        unit > 0,
{
    (size * 10 + unit / 2) / unit
}

/// One decimal place: `t` tenths written as `<whole>.<tenth>`.
pub open spec fn spec_one_decimal(t: nat) -> Seq<char> {
    spec_dec(t / 10) + "."@ + spec_dec(t % 10)
}

/// A human-readable byte count: `B` verbatim under 1024, above that one
/// decimal place in the largest unit that keeps the whole part non-zero.
pub open spec fn spec_format_size(size: nat) -> Seq<char> {
    if size < KB {
        spec_dec(size) + " B"@
    } else if size < MB {
        spec_one_decimal(spec_size_tenths(size, KB as nat)) + " KB"@
    } else if size < GB {
        spec_one_decimal(spec_size_tenths(size, MB as nat)) + " MB"@
    } else if size < TB {
        spec_one_decimal(spec_size_tenths(size, GB as nat)) + " GB"@
    } else {
        spec_one_decimal(spec_size_tenths(size, TB as nat)) + " TB"@
    }
}

fn one_decimal(size: u64, unit: u64) -> (r: String)
    requires
        unit > 0,
        size as int * 10 + unit as int / 2 < u64::MAX as int * (unit as int),
    ensures
        r@ == spec_one_decimal(spec_size_tenths(size as nat, unit as nat)),
{
    let t128: u128 = ((size as u128) * 10 + (unit as u128) / 2) / (unit as u128);
    proof {
        assert(t128 as int == (size as int * 10 + unit as int / 2) / (unit as int));
        assert(t128 < u64::MAX) by (nonlinear_arith)
            requires
                t128 as int == (size as int * 10 + unit as int / 2) / (unit as int),
                size as int * 10 + unit as int / 2 < u64::MAX as int * (unit as int),
                unit as int > 0,
                size as int >= 0,
        ;
    }
    let t: u64 = t128 as u64;
    assert(t as nat == spec_size_tenths(size as nat, unit as nat));
    let mut s = u64_to_dec(t / 10);
    s.push('.');
    let frac = u64_to_dec(t % 10);
    let mut out = s;
    out.append(frac.as_str());
    proof {
        reveal_strlit(".");
        assert(out@ =~= spec_one_decimal(t as nat));
    }
    out
}

pub fn format_size(size: u64) -> (r: String)
    ensures
        r@ == spec_format_size(size as nat),
{
    if size < KB {
        let mut s = u64_to_dec(size);
        s.append(" B");
        s
    } else if size < MB {
        let mut s = one_decimal(size, KB);
        s.append(" KB");
        s
    } else if size < GB {
        let mut s = one_decimal(size, MB);
        s.append(" MB");
        s
    } else if size < TB {
        let mut s = one_decimal(size, GB);
        s.append(" GB");
        s
    } else {
        let mut s = one_decimal(size, TB);
        s.append(" TB");
        s
    }
}

/// The crate's displayed product name and version.
pub fn get_project_version() -> (r: String)
    ensures
        r@ == "quark v.1.0.0"@,
{
    String::from_str("quark v.1.0.0")
}

} // verus!

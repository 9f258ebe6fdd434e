//! Path strings: the forward-slash display form, expansion of a leading
//! `~`, and the parent directory.

use vstd::prelude::*;
use vstd::string::{StrSliceExecFns, StringExecFns};

verus! {

/// How the host platform writes paths. On Windows an extended-length
/// prefix (`\\?\`) is stripped from the display form.
#[derive(Clone, Copy, Debug, PartialEq, Eq, Structural)]
pub enum PathStyle {
    Unix,
    Windows,
}

/// `c` separates path components in the display form.
pub open spec fn is_sep(c: char) -> bool {
    c == '/' || c == '\\'
}

/// Every backslash replaced by a forward slash.
pub open spec fn forward_slashes(s: Seq<char>) -> Seq<char> {
    s.map_values(|c: char| if c == '\\' { '/' } else { c })
}

/// The extended-length prefix once its backslashes are made forward.
pub open spec fn verbatim_prefix() -> Seq<char> {
    seq!['/', '/', '?', '/']
}

/// The display form of a path: forward slashes throughout, without the
/// extended-length prefix on Windows.
pub open spec fn display_form(s: Seq<char>, style: PathStyle) -> Seq<char> {
    let t = forward_slashes(s);
    if style == PathStyle::Windows && t.len() >= 4 && t.take(4) == verbatim_prefix() {
        t.skip(4)
    } else {
        t
    }
}

/// `s` starts with `~/` or `~\`.
pub open spec fn has_tilde_prefix(s: Seq<char>) -> bool {
    s.len() >= 2 && s[0] == '~' && is_sep(s[1])
}

/// `rest` appended to `base` as a further component: an empty base gives
/// `rest`, a base that ends in a separator is followed directly, any other
/// base is followed by `/`.
pub open spec fn join_spec(base: Seq<char>, rest: Seq<char>) -> Seq<char> {
    if base.len() == 0 {
        rest
    } else if is_sep(base.last()) {
        base + rest
    } else {
        base + seq!['/'] + rest
    }
}

/// A leading `~/` or `~\` replaced by the home directory, when it is known.
pub open spec fn expand_tilde_spec(p: Seq<char>, home: Option<Seq<char>>) -> Seq<char> {
    if has_tilde_prefix(p) {
        match home {
            Some(h) => join_spec(h, p.skip(2)),
            None => p,
        }
    } else {
        p
    }
}

/// The display form of the directory that a request names: an empty request
/// names `default_dir`; a leading `~` is expanded.
pub open spec fn resolve_spec(
    raw: Seq<char>,
    default_dir: Seq<char>,
    home: Option<Seq<char>>,
    style: PathStyle,
) -> Seq<char> {
    let p = if raw.len() == 0 { default_dir } else { raw };
    display_form(expand_tilde_spec(p, home), style)
}

/// `s` without its trailing `/` characters.
pub open spec fn trim_trailing(s: Seq<char>) -> Seq<char>
    decreases s.len(),
{
    if s.len() > 0 && s.last() == '/' {
        trim_trailing(s.drop_last())
    } else {
        s
    }
}

/// The index of the last `/` in `s`, or -1 when there is none.
pub open spec fn last_sep(s: Seq<char>) -> int
    decreases s.len(),
{
    if s.len() == 0 {
        -1
    } else if s.last() == '/' {
        s.len() - 1
    } else {
        last_sep(s.drop_last())
    }
}

/// The parent of a display-form path: the path without its last component
/// and the separators before it. A root (`/`, or a drive such as `C:/`) is
/// kept; a path of one component, or a root, has no parent.
pub open spec fn parent_spec(p: Seq<char>) -> Option<Seq<char>> {
    let t = trim_trailing(p);
    let k = last_sep(t);
    if k < 0 {
        None
    } else {
        let h = trim_trailing(t.take(k));
        if h.len() == 0 {
            Some(seq!['/'])
        } else if h.last() == ':' && last_sep(h) < 0 {
            Some(h.push('/'))
        } else {
            Some(h)
        }
    }
}

/// The parent of a display-form path, or the path itself if it has none.
pub open spec fn parent_or_self(p: Seq<char>) -> Seq<char> {
    match parent_spec(p) {
        Some(q) => q,
        None => p,
    }
}

/// The display form of `raw`.
pub fn normalize_display(raw: &str, style: PathStyle) -> (r: String)
    ensures
        r@ == display_form(raw@, style),
{
    proof {
        reveal_strlit("/");
    }
    let n = raw.unicode_len();
    let mut t = String::new();
    let mut i: usize = 0;
    while i < n
        invariant
            n == raw@.len(),
            i <= n,
            t@ == forward_slashes(raw@.take(i as int)),
        decreases n - i,
    {
        let c = raw.get_char(i);
        let ghost before = t@;
        proof {
            reveal_strlit("/");
        }
        if c == '\\' {
            t.append("/");
        } else {
            t.append(raw.substring_char(i, i + 1));
        }
        assert(raw@.subrange(i as int, i + 1) =~= seq![c]);
        assert(t@ =~= before.push(if c == '\\' { '/' } else { c }));
        assert(raw@.take(i + 1) =~= raw@.take(i as int).push(c));
        i = i + 1;
        assert(t@ =~= forward_slashes(raw@.take(i as int)));
    }
    assert(raw@.take(n as int) =~= raw@);
    let ts = t.as_str();
    if style == PathStyle::Windows && n >= 4 && ts.get_char(0) == '/' && ts.get_char(1) == '/'
        && ts.get_char(2) == '?' && ts.get_char(3) == '/' {
        assert(ts@.take(4) =~= verbatim_prefix());
        let s = ts.substring_char(4, n);
        let mut r = String::new();
        r.append(s);
        assert(r@ =~= ts@.skip(4));
        r
    } else {
        proof {
            if style == PathStyle::Windows && n >= 4 && t@.take(4) == verbatim_prefix() {
                assert(t@[0] == t@.take(4)[0]);
                assert(t@[1] == t@.take(4)[1]);
                assert(t@[2] == t@.take(4)[2]);
                assert(t@[3] == t@.take(4)[3]);
            }
        }
        t
    }
}

/// `rest` joined to `base` as `join_spec` describes.
pub fn join_path(base: &str, rest: &str) -> (r: String)
    ensures
        r@ == join_spec(base@, rest@),
{
    proof {
        reveal_strlit("/");
    }
    let bn = base.unicode_len();
    if bn == 0 {
        return rest.to_owned();
    }
    let last = base.get_char(bn - 1);
    let mut r = base.to_owned();
    if last == '/' || last == '\\' {
        r.append(rest);
    } else {
        r.append("/");
        r.append(rest);
    }
    r
}

/// `path` with a leading `~/` or `~\` replaced by `home`, when `home` is
/// known; otherwise `path` unchanged.
pub fn expand_tilde(path: &str, home: Option<&str>) -> (r: String)
    ensures
        r@ == expand_tilde_spec(path@, match home {
            Some(h) => Some(h@),
            None => None,
        }),
{
    let n = path.unicode_len();
    if n >= 2 && path.get_char(0) == '~' && (path.get_char(1) == '/' || path.get_char(1) == '\\') {
        match home {
            Some(h) => {
                let rest = path.substring_char(2, n);
                assert(rest@ =~= path@.skip(2));
                join_path(h, rest)
            },
            None => path.to_owned(),
        }
    } else {
        path.to_owned()
    }
}

/// Relies on home's `home_dir`: the current user's home directory, when it
/// can be found, as text. Which directory that is depends on the
/// environment, so nothing is promised of it.
#[verifier::external_body]
fn home_dir() -> (r: Option<String>) {
    match home::home_dir() {
        Some(p) => Some(p.to_string_lossy().into_owned()),
        None => None,
    }
}

/// `path` with a leading `~/` or `~\` replaced by the current user's home
/// directory; unchanged when there is no such prefix or no home directory
/// can be found.
pub fn check_tilde(path: &str) -> (r: String)
    ensures
        !has_tilde_prefix(path@) ==> r@ == path@,
        has_tilde_prefix(path@) ==> r@ == path@ || exists|h: Seq<char>|
            r@ == join_spec(h, path@.skip(2)),
{
    let home = home_dir();
    match home {
        Some(h) => expand_tilde(path, Some(h.as_str())),
        None => expand_tilde(path, None),
    }
}

/// The display form of the directory that a listing request names: an
/// empty `raw` names `default_dir`; a leading `~` is replaced by `home`.
pub fn resolve_display(raw: &str, default_dir: &str, home: Option<&str>, style: PathStyle) -> (r:
    String)
    ensures
        r@ == resolve_spec(raw@, default_dir@, match home {
            Some(h) => Some(h@),
            None => None,
        }, style),
{
    let p = if raw.unicode_len() == 0 { default_dir } else { raw };
    let e = expand_tilde(p, home);
    normalize_display(e.as_str(), style)
}

/// The length of `s@.take(end)` once its trailing `/` are removed.
fn trimmed_end(s: &str, end: usize) -> (r: usize)
    requires
        end <= s@.len(),
    ensures
        r <= end,
        s@.take(r as int) == trim_trailing(s@.take(end as int)),
{
    let mut j: usize = end;
    while j > 0 && s.get_char(j - 1) == '/'
        invariant
            j <= end <= s@.len(),
            trim_trailing(s@.take(j as int)) == trim_trailing(s@.take(end as int)),
        decreases j,
    {
        assert(s@.take(j as int).drop_last() =~= s@.take(j - 1));
        j = j - 1;
    }
    j
}

/// The index of the last `/` in `s@.take(end)`, if there is one.
fn last_sep_before(s: &str, end: usize) -> (r: Option<usize>)
    requires
        end <= s@.len(),
    ensures
        match r {
            Some(k) => k as int == last_sep(s@.take(end as int)) && k < end,
            None => last_sep(s@.take(end as int)) < 0,
        },
{
    let mut j: usize = end;
    while j > 0
        invariant
            j <= end <= s@.len(),
            last_sep(s@.take(j as int)) == last_sep(s@.take(end as int)),
        decreases j,
    {
        if s.get_char(j - 1) == '/' {
            return Some(j - 1);
        }
        assert(s@.take(j as int).drop_last() =~= s@.take(j - 1));
        j = j - 1;
    }
    None
}

/// The parent of the display-form path `p`, as `parent_spec` describes.
pub fn parent_path(p: &str) -> (r: Option<String>)
    ensures
        match r {
            Some(q) => parent_spec(p@) == Some(q@),
            None => parent_spec(p@) is None,
        },
{
    proof {
        reveal_strlit("/");
    }
    let n = p.unicode_len();
    assert(p@.take(n as int) =~= p@);
    let tl = trimmed_end(p, n);
    let ghost t = p@.take(tl as int);
    match last_sep_before(p, tl) {
        None => None,
        Some(k) => {
            assert(t.take(k as int) =~= p@.take(k as int));
            let hl = trimmed_end(p, k);
            let ghost h = p@.take(hl as int);
            if hl == 0 {
                assert(h =~= Seq::<char>::empty());
                Some("/".to_owned())
            } else {
                let hs = p.substring_char(0, hl);
                assert(hs@ =~= h);
                let last = p.get_char(hl - 1);
                assert(h.last() == last);
                if last == ':' && last_sep_before(p, hl).is_none() {
                    let mut r = hs.to_owned();
                    r.append("/");
                    Some(r)
                } else {
                    Some(hs.to_owned())
                }
            }
        },
    }
}

/// Expanding `~`: with home directory `h`, a request for `~/rest` resolves
/// to the same display path as a request for `h/rest`.
pub proof fn lemma_tilde_resolves_like_home(
    rest: Seq<char>,
    h: Seq<char>,
    default_dir: Seq<char>,
    style: PathStyle,
)
    requires
        h.len() > 0,
        h[0] != '~',
        !is_sep(h.last()),
    ensures
        resolve_spec(seq!['~', '/'] + rest, default_dir, Some(h), style) == resolve_spec(
            h + seq!['/'] + rest,
            default_dir,
            Some(h),
            style,
        ),
{
    let p = seq!['~', '/'] + rest;
    assert(p.skip(2) =~= rest);
    assert((h + seq!['/'] + rest)[0] == h[0]);
}

} // verus!

use vstd::prelude::*;

use vstd::utf8::{
    decode_first_scalar, decode_utf8, is_continuation_byte, length_of_first_scalar, pop_first_scalar,
    valid_first_scalar, valid_utf8, valid_utf8_concat,
};
use crate::text::{decode_lossy, utf8_lossy, chars_of, string_of, lemma_split_concat, lemma_split_nonempty, split_chars, split_on, str_eq};

verus! {

/// Whether `s` starts at the file system root (`Path::has_root` on Unix, which
/// is also `Path::is_absolute` there).
pub open spec fn has_root(s: Seq<char>) -> bool {
    s.len() > 0 && s[0] == '/'
}

/// Whether a relative path starts with a `.` component (`.` alone, or `./...`).
pub open spec fn starts_with_cur_dir(s: Seq<char>) -> bool {
    !has_root(s) && s.len() > 0 && s[0] == '.' && (s.len() == 1 || s[1] == '/')
}

/// The components of a path are written here as tokens: `/` for the root,
/// `.` for a leading current-directory component, `..` for a parent-directory
/// component, and the name itself for a normal component. A normal name is
/// never empty, `.` or `..` and holds no `/`, so two components are equal
/// exactly when their tokens are.
pub open spec fn root_token() -> Seq<char> {
    seq!['/']
}

pub open spec fn cur_dir_token() -> Seq<char> {
    seq!['.']
}

pub open spec fn parent_dir_token() -> Seq<char> {
    seq!['.', '.']
}

/// The tokens of the pieces between separators: empty pieces and `.` pieces
/// name no component.
pub open spec fn segment_tokens(segs: Seq<Seq<char>>) -> Seq<Seq<char>>
    decreases segs.len(),
{
    if segs.len() == 0 {
        Seq::<Seq<char>>::empty()
    } else {
        let init = segment_tokens(segs.drop_last());
        let last = segs.last();
        if last.len() == 0 || last == cur_dir_token() {
            init
        } else {
            init.push(last)
        }
    }
}

/// The components of a path, as `Path::components` yields them on Unix.
pub open spec fn components(s: Seq<char>) -> Seq<Seq<char>> {
    let body = segment_tokens(split_on(s, '/'));
    if has_root(s) {
        seq![root_token()] + body
    } else if starts_with_cur_dir(s) {
        seq![cur_dir_token()] + body
    } else {
        body
    }
}

/// Whether the path has a `..` component.
pub open spec fn has_parent_dir(s: Seq<char>) -> bool {
    components(s).contains(parent_dir_token())
}

/// `Path::starts_with`: the components of `base` begin the components of `p`.
pub open spec fn path_starts_with(p: Seq<char>, base: Seq<char>) -> bool {
    components(base).is_prefix_of(components(p))
}

/// `Path::join` on Unix: an absolute `p` replaces `base`; otherwise `p` is
/// appended, with a `/` between them unless `base` is empty or already ends
/// with one.
pub open spec fn join(base: Seq<char>, p: Seq<char>) -> Seq<char> {
    if has_root(p) {
        p
    } else if base.len() > 0 && base.last() != '/' {
        base.push('/') + p
    } else {
        base + p
    }
}

/// Whether a request for `path` is allowed when the working directory is `cwd`:
/// no `..` component, and inside `cwd`.
pub open spec fn permitted(path: Seq<char>, cwd: Seq<char>) -> bool {
    !has_parent_dir(path) && path_starts_with(path, cwd)
}

/// Why a path was refused.
pub enum PermissionError {
    /// The path holds a `..` component.
    Traversal,
    /// The path lies outside the working directory.
    Outside { error: String, path: String, cwd: String },
}

pub open spec fn traversal_message() -> Seq<char> {
    "path can not contain dir traverse sequence"@
}

pub open spec fn outside_message(error: Seq<char>, path: Seq<char>, cwd: Seq<char>) -> Seq<char> {
    error + ", request path: '"@ + path + "' is outside of "@ + cwd
}

impl PermissionError {
    pub open spec fn message_spec(&self) -> Seq<char> {
        match self {
            PermissionError::Traversal => traversal_message(),
            PermissionError::Outside { error, path, cwd } => outside_message(error@, path@, cwd@),
        }
    }

    /// The text of the error.
    pub fn message(&self) -> (m: String)
        ensures
            m@ == self.message_spec(),
    {
        match self {
            PermissionError::Traversal => String::from_str("path can not contain dir traverse sequence"),
            PermissionError::Outside { error, path, cwd } => {
                let mut m = String::from_str(error.as_str());
                m.append(", request path: '");
                m.append(path.as_str());
                m.append("' is outside of ");
                m.append(cwd.as_str());
                m
            },
        }
    }
}

/// The tokens of the pieces `segs` (see `segment_tokens`).
fn tokens_of(segs: &Vec<String>) -> (toks: Vec<String>)
    ensures
        toks.deep_view() == segment_tokens(segs.deep_view()),
{
    let mut toks: Vec<String> = Vec::new();
    let mut i: usize = 0;
    proof {
        reveal_strlit(".");
    }
    while i < segs.len()
        invariant
            i <= segs@.len(),
            toks.deep_view() == segment_tokens(segs.deep_view().take(i as int)),
        decreases segs@.len() - i,
    {
        let ghost pre = segs.deep_view().take(i as int);
        let ghost nxt = segs.deep_view().take(i + 1);
        assert(nxt.drop_last() =~= pre);
        let seg = &segs[i];
        proof {
            reveal_strlit(".");
            assert("."@ =~= cur_dir_token());
        }
        assert(nxt.last() == seg@);
        let empty = seg.as_str().unicode_len() == 0;
        let dot = str_eq(seg.as_str(), ".");
        if !empty && !dot {
            let ghost before = toks.deep_view();
            toks.push(seg.clone());
            assert(toks.deep_view() =~= before.push(seg@));
            assert(toks.deep_view() =~= segment_tokens(nxt));
        } else {
            assert(segment_tokens(nxt) == segment_tokens(pre));
        }
        i = i + 1;
    }
    assert(segs.deep_view().take(segs@.len() as int) =~= segs.deep_view());
    toks
}

/// The components of the path `cs` (see `components`).
pub fn components_of(cs: &[char]) -> (comps: Vec<String>)
    ensures
        comps.deep_view() == components(cs@),
{
    let segs = split_chars(cs, '/');
    let body = tokens_of(&segs);
    let mut comps: Vec<String> = Vec::new();
    proof {
        reveal_strlit("/");
        reveal_strlit(".");
    }
    assert("/"@ =~= root_token());
    assert("."@ =~= cur_dir_token());
    let n = cs.len();
    if n > 0 && cs[0] == '/' {
        comps.push(String::from_str("/"));
        assert(comps.deep_view() =~= seq![root_token()]);
    } else if n > 0 && cs[0] == '.' && (n == 1 || cs[1] == '/') {
        comps.push(String::from_str("."));
        assert(comps.deep_view() =~= seq![cur_dir_token()]);
    } else {
        assert(comps.deep_view() =~= Seq::<Seq<char>>::empty());
    }
    let ghost head = comps.deep_view();
    let mut i: usize = 0;
    while i < body.len()
        invariant
            i <= body@.len(),
            comps.deep_view() == head + body.deep_view().take(i as int),
        decreases body@.len() - i,
    {
        let ghost before = comps.deep_view();
        assert(body.deep_view()[i as int] == body@[i as int]@);
        comps.push(body[i].clone());
        assert(comps.deep_view() =~= before.push(body@[i as int]@));
        assert(body.deep_view().take(i + 1) =~= body.deep_view().take(i as int).push(body@[i as int]@));
        i = i + 1;
        assert(comps.deep_view() =~= head + body.deep_view().take(i as int));
    }
    assert(body.deep_view().take(body@.len() as int) =~= body.deep_view());
    assert(comps.deep_view() =~= components(cs@));
    comps
}

/// The path with each `\` read as `/`, where the platform (`windows`) takes
/// both as separators; elsewhere the path as it is. The model of paths above
/// knows `/` alone, so this is how a path is checked on such a platform: a
/// `..` between backslashes is then seen as a component.
pub open spec fn unified_separators(s: Seq<char>, windows: bool) -> Seq<char> {
    if windows {
        s.map_values(|c: char| if c == '\\' { '/' } else { c })
    } else {
        s
    }
}

/// See `unified_separators`.
pub fn unify_separators(s: &str, windows: bool) -> (r: String)
    ensures
        r@ == unified_separators(s@, windows),
{
    if !windows {
        return String::from_str(s);
    }
    let cs = chars_of(s);
    let mut out: Vec<char> = Vec::new();
    let mut i: usize = 0;
    while i < cs.len()
        invariant
            i <= cs@.len(),
            cs@ == s@,
            out@ == unified_separators(s@, true).take(i as int),
        decreases cs@.len() - i,
    {
        let c = cs[i];
        if c == '\\' {
            out.push('/');
        } else {
            out.push(c);
        }
        i = i + 1;
        assert(out@ =~= unified_separators(s@, true).take(i as int));
    }
    assert(unified_separators(s@, true).take(cs@.len() as int) =~= unified_separators(s@, true));
    string_of(out.as_slice())
}

/// Whether `s` starts with a drive, as in `C:`.
pub open spec fn has_drive(s: Seq<char>) -> bool {
    s.len() >= 2 && s[1] == ':' && (('a' <= s[0] && s[0] <= 'z') || ('A' <= s[0] && s[0] <= 'Z'))
}

/// Whether a path (separators unified) starts with a Windows prefix: a
/// drive, or the `//` of a share or device path.
pub open spec fn has_windows_prefix(s: Seq<char>) -> bool {
    has_drive(s) || (s.len() >= 2 && s[0] == '/' && s[1] == '/')
}

/// `Path::join` on Windows, over paths whose separators were unified: a path
/// with a prefix replaces `base`; a path that starts at the root keeps the
/// drive of `base`; any other path is appended as on Unix.
pub open spec fn join_windows(base: Seq<char>, p: Seq<char>) -> Seq<char> {
    if has_windows_prefix(p) {
        p
    } else if has_root(p) && has_drive(base) {
        base.take(2) + p
    } else {
        join(base, p)
    }
}

/// `Path::join` on the platform that `windows` names.
pub open spec fn join_on(base: Seq<char>, p: Seq<char>, windows: bool) -> Seq<char> {
    if windows {
        join_windows(base, p)
    } else {
        join(base, p)
    }
}

fn is_drive_letter(c: char) -> (r: bool)
    ensures
        r == (('a' <= c && c <= 'z') || ('A' <= c && c <= 'Z')),
{
    ('a' <= c && c <= 'z') || ('A' <= c && c <= 'Z')
}

/// The absolute form of `path` named relative to `cwd`, on the platform that
/// `windows` names (separators already unified there).
pub fn to_abs_path_on(path: &str, cwd: &str, windows: bool) -> (abs: String)
    ensures
        abs@ == join_on(cwd@, path@, windows),
{
    if windows {
        let pn = path.unicode_len();
        if pn >= 2 && ((is_drive_letter(path.get_char(0)) && path.get_char(1) == ':') || (
        path.get_char(0) == '/' && path.get_char(1) == '/')) {
            return String::from_str(path);
        }
        let cn = cwd.unicode_len();
        if pn >= 1 && path.get_char(0) == '/' && cn >= 2 && is_drive_letter(cwd.get_char(0))
            && cwd.get_char(1) == ':' {
            let mut abs = String::from_str(cwd.substring_char(0, 2));
            abs.append(path);
            assert(cwd@.subrange(0, 2) =~= cwd@.take(2));
            return abs;
        }
    }
    to_abs_path(path, cwd)
}

/// `base.join(path)` with a relative `path`, or `path` itself when it is
/// absolute: the absolute form of a path named relative to `cwd`.
pub fn to_abs_path(path: &str, cwd: &str) -> (abs: String)
    ensures
        abs@ == join(cwd@, path@),
        has_root(path@) ==> abs@ == path@,
{
    let pn = path.unicode_len();
    if pn > 0 && path.get_char(0) == '/' {
        return String::from_str(path);
    }
    let cn = cwd.unicode_len();
    let mut abs = String::from_str(cwd);
    if cn > 0 && cwd.get_char(cn - 1) != '/' {
        abs.append("/");
        proof {
            reveal_strlit("/");
        }
    }
    abs.append(path);
    abs
}

/// Refuses a path with a `..` component, and a path outside of `cwd`; `error`
/// opens the message of the second refusal.
pub fn assert_cwd_permission(path: &str, cwd: &str, error: &str) -> (r: Result<(), PermissionError>)
    ensures
        r is Ok <==> permitted(path@, cwd@),
        has_parent_dir(path@) ==> r == Err::<(), PermissionError>(PermissionError::Traversal),
        !has_parent_dir(path@) && !path_starts_with(path@, cwd@) ==> (match r {
            Err(PermissionError::Outside { error: e, path: p, cwd: c }) => e@ == error@ && p@
                == path@ && c@ == cwd@,
            _ => false,
        }),
{
    let pcs = chars_of(path);
    let ccs = chars_of(cwd);
    let pc = components_of(pcs.as_slice());
    let cc = components_of(ccs.as_slice());
    proof {
        reveal_strlit("..");
    }
    let mut i: usize = 0;
    while i < pc.len()
        invariant
            i <= pc@.len(),
            pc.deep_view() == components(path@),
            forall|k: int| 0 <= k < i ==> pc.deep_view()[k] != parent_dir_token(),
        decreases pc@.len() - i,
    {
        assert(pc.deep_view()[i as int] == pc@[i as int]@);
        proof {
            reveal_strlit("..");
            assert(".."@ =~= parent_dir_token());
        }
        if str_eq(pc[i].as_str(), "..") {
            assert(pc.deep_view()[i as int] == parent_dir_token());
            assert(has_parent_dir(path@));
            return Err(PermissionError::Traversal);
        }
        i = i + 1;
    }
    assert(!has_parent_dir(path@));
    if cc.len() > pc.len() {
        return Err(
            PermissionError::Outside {
                error: String::from_str(error),
                path: String::from_str(path),
                cwd: String::from_str(cwd),
            },
        );
    }
    let mut j: usize = 0;
    while j < cc.len()
        invariant
            j <= cc@.len() <= pc@.len(),
            pc.deep_view() == components(path@),
            cc.deep_view() == components(cwd@),
            !has_parent_dir(path@),
            forall|k: int| 0 <= k < j ==> pc.deep_view()[k] == cc.deep_view()[k],
        decreases cc@.len() - j,
    {
        assert(pc.deep_view()[j as int] == pc@[j as int]@);
        assert(cc.deep_view()[j as int] == cc@[j as int]@);
        if pc[j] != cc[j] {
            assert(pc.deep_view()[j as int] != cc.deep_view()[j as int]);
            return Err(
                PermissionError::Outside {
                    error: String::from_str(error),
                    path: String::from_str(path),
                    cwd: String::from_str(cwd),
                },
            );
        }
        j = j + 1;
    }
    assert(components(cwd@) =~= components(path@).subrange(0, components(cwd@).len() as int));
    Ok(())
}

/// The tokens of two runs of pieces are the tokens of each, in order.
proof fn lemma_tokens_concat(x: Seq<Seq<char>>, y: Seq<Seq<char>>)
    ensures
        segment_tokens(x + y) == segment_tokens(x) + segment_tokens(y),
    decreases y.len(),
{
    if y.len() == 0 {
        assert(x + y =~= x);
        assert(segment_tokens(x) + segment_tokens(y) =~= segment_tokens(x));
    } else {
        lemma_tokens_concat(x, y.drop_last());
        assert((x + y).drop_last() =~= x + y.drop_last());
        assert((x + y).last() == y.last());
        let l = y.last();
        if !(l.len() == 0 || l == cur_dir_token()) {
            assert((segment_tokens(x) + segment_tokens(y.drop_last())).push(l) =~= segment_tokens(x)
                + segment_tokens(y.drop_last()).push(l));
        }
    }
}

/// The components of a non-empty directory joined with a relative path: those
/// of the directory, then those of the relative path's pieces.
proof fn lemma_join_components(cwd: Seq<char>, p: Seq<char>)
    requires
        cwd.len() > 0,
        !has_root(p),
    ensures
        components(join(cwd, p)) == components(cwd) + segment_tokens(split_on(p, '/')),
{
    let j = join(cwd, p);
    if cwd.last() != '/' {
        assert(j == cwd.push('/') + p);
        lemma_split_concat(cwd, p, '/');
        lemma_tokens_concat(split_on(cwd, '/'), split_on(p, '/'));
        if cwd.len() == 1 {
            assert(j[1] == '/');
        } else {
            assert(j[1] == cwd[1]);
        }
    } else {
        let c0 = cwd.drop_last();
        assert(j =~= c0.push('/') + p);
        assert(cwd =~= c0.push('/'));
        lemma_split_concat(c0, p, '/');
        lemma_tokens_concat(split_on(c0, '/'), split_on(p, '/'));
        assert(split_on(cwd, '/') == split_on(c0, '/').push(Seq::<char>::empty()));
        assert(split_on(cwd, '/').drop_last() =~= split_on(c0, '/'));
        assert(segment_tokens(split_on(cwd, '/')) == segment_tokens(split_on(c0, '/')));
        if cwd.len() >= 2 {
            assert(j[1] == cwd[1]);
        }
    }
    assert(j[0] == cwd[0]);
    assert(has_root(j) == has_root(cwd));
    assert(starts_with_cur_dir(j) == starts_with_cur_dir(cwd));
    let a = segment_tokens(split_on(cwd, '/'));
    let b = segment_tokens(split_on(p, '/'));
    assert(seq![root_token()] + (a + b) =~= (seq![root_token()] + a) + b);
    assert(seq![cur_dir_token()] + (a + b) =~= (seq![cur_dir_token()] + a) + b);
}

/// A path named relative to the working directory is allowed exactly when
/// neither the working directory nor the relative path holds a `..`
/// component: such a request never leaves the working directory.
pub proof fn law_relative_request_permitted(cwd: Seq<char>, p: Seq<char>)
    requires
        !has_root(p),
    ensures
        permitted(join(cwd, p), cwd) <==> !has_parent_dir(cwd) && !has_parent_dir(p),
        path_starts_with(join(cwd, p), cwd),
        has_parent_dir(p) ==> has_parent_dir(join(cwd, p)),
{
    let j = join(cwd, p);
    if cwd.len() == 0 {
        assert(j == p);
        let segs = split_on(cwd, '/');
        assert(segs == seq![Seq::<char>::empty()]);
        assert(segs.drop_last() =~= Seq::<Seq<char>>::empty());
        assert(segment_tokens(segs) == segment_tokens(segs.drop_last()));
        assert(components(cwd) =~= Seq::<Seq<char>>::empty());
        assert(components(cwd) =~= components(j).subrange(0, 0));
        assert(!has_parent_dir(cwd));
        return;
    }
    lemma_join_components(cwd, p);
    let cc = components(cwd);
    let t = segment_tokens(split_on(p, '/'));
    assert(components(j) == cc + t);
    assert(cc =~= (cc + t).subrange(0, cc.len() as int));
    assert(components(p) == t || components(p) == seq![cur_dir_token()] + t);
    if has_parent_dir(j) {
        let k = choose|k: int| 0 <= k < components(j).len() && components(j)[k] == parent_dir_token();
        if k < cc.len() {
            assert(cc[k] == parent_dir_token());
            assert(has_parent_dir(cwd));
        } else {
            assert(t[k - cc.len()] == parent_dir_token());
            if components(p) == t {
                assert(components(p)[k - cc.len()] == parent_dir_token());
            } else {
                assert(components(p)[k - cc.len() + 1] == parent_dir_token());
            }
            assert(has_parent_dir(p));
        }
    }
    if has_parent_dir(cwd) {
        let k = choose|k: int| 0 <= k < cc.len() && cc[k] == parent_dir_token();
        assert(components(j)[k] == parent_dir_token());
    }
    if has_parent_dir(p) {
        let k = choose|k: int| 0 <= k < components(p).len() && components(p)[k] == parent_dir_token();
        if components(p) == t {
            assert(components(j)[cc.len() + k] == parent_dir_token());
        } else {
            assert(components(p)[0] == cur_dir_token());
            assert(cur_dir_token().len() != parent_dir_token().len());
            assert(k != 0);
            assert(components(j)[cc.len() + k - 1] == parent_dir_token());
        }
    }
}

/// Joined with an absolute working directory, every path is absolute, and
/// making it absolute again leaves it as it is: `to_abs_path` is idempotent.
pub proof fn law_abs_path_idempotent(cwd: Seq<char>, p: Seq<char>)
    requires
        has_root(cwd),
    ensures
        has_root(join(cwd, p)),
        join(cwd, join(cwd, p)) == join(cwd, p),
{
    let j = join(cwd, p);
    if !has_root(p) {
        if cwd.last() != '/' {
            assert(j[0] == cwd.push('/')[0]);
        } else {
            assert(j[0] == cwd[0]);
        }
    }
}

/// Whatever the working directory, a request that names a `..` component is
/// refused.
pub proof fn law_traversal_refused(path: Seq<char>, cwd: Seq<char>)
    requires
        has_parent_dir(path),
    ensures
        !permitted(path, cwd),
{
}

/// Where the body of a path starts: after the root `/` or a leading `.`
/// component.
pub open spec fn body_start(s: Seq<char>) -> int {
    if has_root(s) || starts_with_cur_dir(s) {
        1
    } else {
        0
    }
}

/// `t` without the trailing pieces that name no component (empty pieces and
/// `.` pieces), never cutting into the first `lo` characters.
pub open spec fn trim_back(t: Seq<char>, lo: int) -> Seq<char>
    decreases t.len(),
{
    if t.len() <= lo || lo < 0 {
        t
    } else if t.last() == '/' {
        trim_back(t.drop_last(), lo)
    } else if t.last() == '.' && t.len() - 1 == lo {
        t.take(lo)
    } else if t.last() == '.' && t.len() >= 2 && t[t.len() - 2] == '/' && t.len() - 2 >= lo {
        trim_back(t.take(t.len() - 2), lo)
    } else {
        t
    }
}

/// `t` without its last piece and the separator before it, never cutting
/// into the first `lo` characters.
pub open spec fn cut_last(t: Seq<char>, lo: int) -> Seq<char>
    decreases t.len(),
{
    if t.len() <= lo || lo < 0 {
        t
    } else if t.last() == '/' {
        t.drop_last()
    } else {
        cut_last(t.drop_last(), lo)
    }
}

/// `Path::parent` on Unix: the path without its last component, or nothing
/// for the root and for the empty path.
pub open spec fn parent_of(s: Seq<char>) -> Option<Seq<char>> {
    let lo = body_start(s);
    let t = trim_back(s, lo);
    if t.len() > lo {
        Some(trim_back(cut_last(t, lo), lo))
    } else if has_root(s) {
        None
    } else if lo == 1 {
        Some(Seq::<char>::empty())
    } else {
        None
    }
}

fn trim_back_len(cs: &Vec<char>, lo: usize, n: usize) -> (m: usize)
    requires
        lo <= n <= cs@.len(),
    ensures
        lo <= m <= n,
        cs@.take(m as int) == trim_back(cs@.take(n as int), lo as int),
{
    let mut m = n;
    loop
        invariant
            lo <= m <= n <= cs@.len(),
            trim_back(cs@.take(n as int), lo as int) == trim_back(cs@.take(m as int), lo as int),
        decreases m,
    {
        let ghost t = cs@.take(m as int);
        if m <= lo {
            return m;
        }
        assert(t.last() == cs@[m - 1]);
        if cs[m - 1] == '/' {
            assert(t.drop_last() =~= cs@.take(m - 1));
            m = m - 1;
        } else if cs[m - 1] == '.' && m - 1 == lo {
            assert(t.take(lo as int) =~= cs@.take(lo as int));
            return lo;
        } else if cs[m - 1] == '.' && m >= 2 && cs[m - 2] == '/' && m - 2 >= lo {
            assert(t[t.len() - 2] == cs@[m - 2]);
            assert(t.take(t.len() - 2) =~= cs@.take(m - 2));
            m = m - 2;
        } else {
            return m;
        }
    }
}

fn cut_last_len(cs: &Vec<char>, lo: usize, n: usize) -> (m: usize)
    requires
        lo <= n <= cs@.len(),
    ensures
        lo <= m <= n,
        cs@.take(m as int) == cut_last(cs@.take(n as int), lo as int),
{
    let mut m = n;
    loop
        invariant
            lo <= m <= n <= cs@.len(),
            cut_last(cs@.take(n as int), lo as int) == cut_last(cs@.take(m as int), lo as int),
        decreases m,
    {
        let ghost t = cs@.take(m as int);
        if m <= lo {
            return m;
        }
        assert(t.last() == cs@[m - 1]);
        assert(t.drop_last() =~= cs@.take(m - 1));
        if cs[m - 1] == '/' {
            return m - 1;
        }
        m = m - 1;
    }
}

fn string_of_prefix(cs: &Vec<char>, m: usize) -> (s: String)
    requires
        m <= cs@.len(),
    ensures
        s@ == cs@.take(m as int),
{
    let mut s = String::new();
    let mut i: usize = 0;
    while i < m
        invariant
            m <= cs@.len(),
            i <= m,
            s@ == cs@.take(i as int),
        decreases m - i,
    {
        s.push(cs[i]);
        i = i + 1;
        assert(s@ =~= cs@.take(i as int));
    }
    s
}

/// The parent of `path` (see `parent_of`).
pub fn parent(path: &str) -> (r: Option<String>)
    ensures
        r is None <==> parent_of(path@) is None,
        r matches Some(p) ==> parent_of(path@) == Some(p@),
{
    let cs = chars_of(path);
    let n = cs.len();
    assert(cs@.take(n as int) =~= path@);
    let has_root = n > 0 && cs[0] == '/';
    let cur = !has_root && n > 0 && cs[0] == '.' && (n == 1 || cs[1] == '/');
    let lo: usize = if has_root || cur { 1 } else { 0 };
    assert(lo == body_start(path@));
    let t = trim_back_len(&cs, lo, n);
    if t > lo {
        let c = cut_last_len(&cs, lo, t);
        assert(cs@.take(c as int).len() == c);
        let p = trim_back_len(&cs, lo, c);
        Some(string_of_prefix(&cs, p))
    } else if has_root {
        None
    } else if lo == 1 {
        Some(String::new())
    } else {
        None
    }
}

/// The tokens of the pieces of `x` (the components after any root or
/// leading `.`).
pub open spec fn body_tokens(x: Seq<char>) -> Seq<Seq<char>> {
    segment_tokens(split_on(x, '/'))
}

/// The token that a single piece names, if any.
pub open spec fn piece_tokens(w: Seq<char>) -> Seq<Seq<char>> {
    if w.len() == 0 || w == cur_dir_token() {
        Seq::<Seq<char>>::empty()
    } else {
        seq![w]
    }
}

/// Text without a separator is a single piece.
proof fn lemma_split_no_sep(w: Seq<char>)
    requires
        forall|j: int| 0 <= j < w.len() ==> w[j] != '/',
    ensures
        split_on(w, '/') == seq![w],
    decreases w.len(),
{
    if w.len() > 0 {
        let u = w.drop_last();
        assert(w.last() == w[w.len() - 1]);
        assert forall|j: int| 0 <= j < u.len() implies u[j] != '/' by {
            assert(u[j] == w[j]);
        }
        lemma_split_no_sep(u);
        assert(u.push(w.last()) =~= w);
        assert(seq![u].update(0, u.push(w.last())) =~= seq![w]);
    } else {
        assert(w =~= Seq::<char>::empty());
    }
}

proof fn lemma_single_tokens(w: Seq<char>)
    ensures
        segment_tokens(seq![w]) == piece_tokens(w),
{
    assert(seq![w].drop_last() =~= Seq::<Seq<char>>::empty());
    assert(segment_tokens(Seq::<Seq<char>>::empty()) == Seq::<Seq<char>>::empty());
    assert(Seq::<Seq<char>>::empty().push(w) =~= seq![w]);
}

/// The tokens of a text without a separator.
proof fn lemma_tokens_no_sep(w: Seq<char>)
    requires
        forall|j: int| 0 <= j < w.len() ==> w[j] != '/',
    ensures
        body_tokens(w) == piece_tokens(w),
{
    lemma_split_no_sep(w);
    lemma_single_tokens(w);
}

/// The tokens of a text are those before its last separator, then the token
/// of the piece after it.
proof fn lemma_tokens_last(x: Seq<char>, k: int)
    requires
        0 <= k < x.len(),
        x[k] == '/',
        forall|j: int| k < j < x.len() ==> x[j] != '/',
    ensures
        body_tokens(x) == body_tokens(x.take(k)) + piece_tokens(x.skip(k + 1)),
{
    let a = x.take(k);
    let w = x.skip(k + 1);
    assert(x =~= a.push('/') + w);
    lemma_split_concat(a, w, '/');
    assert forall|j: int| 0 <= j < w.len() implies w[j] != '/' by {
        assert(w[j] == x[k + 1 + j]);
    }
    lemma_split_no_sep(w);
    lemma_tokens_concat(split_on(a, '/'), split_on(w, '/'));
    lemma_single_tokens(w);
}

/// Trimming keeps a prefix that names the same components, and leaves
/// nothing to trim.
proof fn lemma_trim_back(t: Seq<char>, lo: int)
    requires
        0 <= lo <= 1,
        lo <= t.len(),
        lo == 1 ==> t[0] == '/' || (t[0] == '.' && (t.len() == 1 || t[1] == '/')),
    ensures
        lo <= trim_back(t, lo).len() <= t.len(),
        trim_back(t, lo) == t.take(trim_back(t, lo).len() as int),
        body_tokens(trim_back(t, lo)) == body_tokens(t),
        ({
            let r = trim_back(t, lo);
            r.len() > lo ==> r.last() != '/' && !(r.last() == '.' && (r.len() - 1 == lo || (r.len()
                >= 2 && r[r.len() - 2] == '/' && r.len() - 2 >= lo)))
        }),
        ({
            let r = trim_back(t, lo);
            r.len() > lo && r.len() < t.len() ==> t[r.len() as int] == '/'
        }),
    decreases t.len(),
{
    let r = trim_back(t, lo);
    if t.len() <= lo {
        assert(t.take(t.len() as int) =~= t);
    } else if t.last() == '/' {
        let u = t.drop_last();
        assert(split_on(t, '/') == split_on(u, '/').push(Seq::<char>::empty()));
        assert(split_on(t, '/').drop_last() =~= split_on(u, '/'));
        assert(body_tokens(t) == body_tokens(u));
        lemma_trim_back(u, lo);
        assert(r.take(r.len() as int) =~= r);
        assert(t.take(r.len() as int) =~= u.take(r.len() as int));
    } else if t.last() == '.' && t.len() - 1 == lo {
        assert(r =~= t.take(lo));
        if lo == 0 {
            assert(t =~= seq!['.']);
            lemma_tokens_no_sep(t);
            lemma_tokens_no_sep(r);
        } else {
            assert(t[0] == '/');
            assert(t =~= Seq::<char>::empty().push('/') + seq!['.']);
            lemma_split_concat(Seq::<char>::empty(), seq!['.'], '/');
            lemma_split_no_sep(seq!['.']);
            lemma_split_no_sep(Seq::<char>::empty());
            lemma_tokens_concat(split_on(Seq::<char>::empty(), '/'), split_on(seq!['.'], '/'));
            lemma_single_tokens(seq!['.']);
            lemma_single_tokens(Seq::<char>::empty());
            assert(r =~= Seq::<char>::empty().push('/') + Seq::<char>::empty());
            lemma_split_concat(Seq::<char>::empty(), Seq::<char>::empty(), '/');
            lemma_tokens_concat(split_on(Seq::<char>::empty(), '/'), split_on(Seq::<char>::empty(), '/'));
        }
    } else if t.last() == '.' && t.len() >= 2 && t[t.len() - 2] == '/' && t.len() - 2 >= lo {
        let u = t.take(t.len() - 2);
        assert(t =~= u.push('/') + seq!['.']);
        lemma_split_concat(u, seq!['.'], '/');
        lemma_split_no_sep(seq!['.']);
        lemma_tokens_concat(split_on(u, '/'), split_on(seq!['.'], '/'));
        lemma_single_tokens(seq!['.']);
        assert(body_tokens(t) =~= body_tokens(u));
        if lo == 1 && u.len() >= 2 {
            assert(u[1] == t[1]);
        }
        lemma_trim_back(u, lo);
        assert(t.take(r.len() as int) =~= u.take(r.len() as int));
        if r.len() == u.len() {
            assert(t[r.len() as int] == '/');
        }
    } else {
        assert(t.take(t.len() as int) =~= t);
    }
}

/// Cutting the last piece stops at the last separator at or after `lo`, or
/// at `lo` when there is none.
proof fn lemma_cut_last(t: Seq<char>, lo: int) -> (k: int)
    requires
        0 <= lo < t.len(),
    ensures
        (lo <= k < t.len() && t[k] == '/' && (forall|j: int| k < j < t.len() ==> t[j] != '/')
            && cut_last(t, lo) == t.take(k)) || (k == -1 && (forall|j: int|
            lo <= j < t.len() ==> t[j] != '/') && cut_last(t, lo) == t.take(lo)),
    decreases t.len(),
{
    if t.last() == '/' {
        assert(t.drop_last() =~= t.take(t.len() - 1));
        (t.len() - 1) as int
    } else if t.len() - 1 == lo {
        assert(cut_last(t, lo) == cut_last(t.drop_last(), lo));
        assert(t.drop_last() =~= t.take(lo));
        -1
    } else {
        let u = t.drop_last();
        let k = lemma_cut_last(u, lo);
        assert(cut_last(t, lo) == cut_last(u, lo));
        assert forall|j: int| 0 <= j < u.len() implies u[j] == t[j] by {}
        if k >= 0 {
            assert(u.take(k) =~= t.take(k));
            assert(t[k] == u[k]);
            assert forall|j: int| k < j < t.len() implies t[j] != '/' by {
                if j < u.len() {
                    assert(t[j] == u[j]);
                }
            }
        } else {
            assert forall|j: int| lo <= j < t.len() implies t[j] != '/' by {
                if j < u.len() {
                    assert(t[j] == u[j]);
                }
            }
            assert(u.take(lo) =~= t.take(lo));
        }
        k
    }
}

/// `parent` drops the last component: the parent of a path names the
/// components of the path but the last, and a path has no parent exactly when
/// it names no component or only the root.
pub proof fn law_parent_drops_last_component(s: Seq<char>)
    ensures
        parent_of(s) is None <==> (components(s).len() == 0 || components(s) == seq![root_token()]),
        parent_of(s) matches Some(p) ==> components(p) == components(s).drop_last(),
{
    let lo = body_start(s);
    lemma_trim_back(s, lo);
    let t = trim_back(s, lo);
    let e = Seq::<char>::empty();
    lemma_split_no_sep(e);
    lemma_single_tokens(e);
    assert(body_tokens(e) =~= Seq::<Seq<char>>::empty());
    assert(body_tokens(seq!['/']) =~= Seq::<Seq<char>>::empty()) by {
        assert(seq!['/'] =~= e.push('/') + e);
        lemma_split_concat(e, e, '/');
        lemma_tokens_concat(split_on(e, '/'), split_on(e, '/'));
    }
    assert(body_tokens(seq!['.']) =~= Seq::<Seq<char>>::empty()) by {
        lemma_tokens_no_sep(seq!['.']);
    }
    if t.len() > lo {
        let k = lemma_cut_last(t, lo);
        if k >= 0 {
            let c = t.take(k);
            let w = t.skip(k + 1);
            lemma_tokens_last(t, k);
            assert(w.len() > 0);
            assert(w != cur_dir_token()) by {
                if w == cur_dir_token() {
                    assert(t.last() == '.');
                    assert(t[t.len() - 2] == '/');
                }
            }
            assert(piece_tokens(w) == seq![w]);
            assert(w[0] == t[k + 1]);
            assert(w[0] != '/');
            assert(root_token()[0] == '/');
            if lo == 1 && c.len() >= 2 {
                assert(c[1] == s[1]);
            }
            lemma_trim_back(c, lo);
            let p = trim_back(c, lo);
            assert(p =~= s.take(p.len() as int));
            if p.len() >= 1 {
                assert(p[0] == s[0]);
            }
            if p.len() >= 2 {
                assert(p[1] == s[1]);
            }
            if lo == 0 && p.len() == 1 && p[0] == '.' {
                if p.len() < c.len() {
                    assert(c[1] == '/');
                    assert(s[1] == '/');
                } else {
                    assert(k == 1);
                    assert(s[1] == '/');
                }
                assert(starts_with_cur_dir(s));
            }
            assert(has_root(p) == has_root(s));
            assert(starts_with_cur_dir(p) == starts_with_cur_dir(s));
            assert(body_tokens(s) == body_tokens(c).push(w));
            if has_root(s) {
                assert(components(s) =~= (seq![root_token()] + body_tokens(c)).push(w));
            } else if starts_with_cur_dir(s) {
                assert(components(s) =~= (seq![cur_dir_token()] + body_tokens(c)).push(w));
            } else {
                assert(components(s) =~= body_tokens(c).push(w));
            }
            assert(components(s).len() > 0);
            assert(components(s).last() == w);
            assert(components(s) != seq![root_token()]);
            assert(parent_of(s) is None <==> (components(s).len() == 0 || components(s) == seq![root_token()]));
        } else {
            if lo == 0 {
                assert forall|j: int| 0 <= j < t.len() implies t[j] != '/' by {}
                lemma_tokens_no_sep(t);
                assert(t != cur_dir_token()) by {
                    if t == cur_dir_token() {
                        if t.len() < s.len() {
                            assert(s[1] == '/');
                        }
                        assert(starts_with_cur_dir(s));
                    }
                }
                assert(t.take(0) =~= e);
                assert(components(s) =~= seq![t]);
                assert(t[0] != '/');
                assert(root_token()[0] == '/');
                assert(t != root_token());
                assert(components(s)[0] == t);
                assert(parent_of(s) is None <==> (components(s).len() == 0 || components(s) == seq![root_token()]));
            } else if has_root(s) {
                lemma_tokens_last(t, 0);
                let w = t.skip(1);
                assert(t.take(0) =~= e);
                assert(w != cur_dir_token()) by {
                    if w == cur_dir_token() {
                        assert(t.len() == 2 && t.last() == '.');
                    }
                }
                assert(t.take(1) =~= seq!['/']);
                assert(components(s) =~= seq![root_token(), w]);
                assert(parent_of(s) is None <==> (components(s).len() == 0 || components(s) == seq![root_token()]));
            } else {
                assert(t[1] == s[1]);
            }
        }
    } else {
        assert(t =~= s.take(lo));
        if has_root(s) {
            assert(t =~= seq!['/']);
            assert(components(s) =~= seq![root_token()]);
        } else if starts_with_cur_dir(s) {
            assert(t =~= seq!['.']);
            assert(components(s) =~= seq![cur_dir_token()]);
            assert(cur_dir_token()[0] != root_token()[0]);
            assert(components(s)[0] != seq![root_token()][0]);
        } else {
            assert(t =~= e);
            assert(components(s) =~= Seq::<Seq<char>>::empty());
        }
        assert(parent_of(s) is None <==> (components(s).len() == 0 || components(s) == seq![root_token()]));
    }
}

/// The length of the first line of `s`, its newline included (all of `s`
/// when it holds no newline).
pub open spec fn first_line_len(s: Seq<u8>) -> nat
    decreases s.len(),
{
    if s.len() == 0 {
        0
    } else if s[0] == 10 {
        1
    } else {
        1 + first_line_len(s.drop_first())
    }
}

/// `s` without its first `n` lines (all of it when it has fewer).
pub open spec fn drop_lines(s: Seq<u8>, n: nat) -> Seq<u8>
    decreases n,
{
    if n == 0 || s.len() == 0 {
        s
    } else {
        drop_lines(s.skip(first_line_len(s) as int), (n - 1) as nat)
    }
}

/// The first `n` lines of `s`, newlines kept (all of it when it has fewer).
pub open spec fn take_lines(s: Seq<u8>, n: nat) -> Seq<u8>
    decreases n,
{
    if n == 0 || s.len() == 0 {
        Seq::<u8>::empty()
    } else {
        s.take(first_line_len(s) as int) + take_lines(s.skip(first_line_len(s) as int), (n - 1) as nat)
    }
}

/// The bytes that a read of `s` returns: skip `skip` lines (none by default),
/// then keep `read` lines (as many as there are by default).
pub open spec fn selected_lines(s: Seq<u8>, skip: Option<usize>, read: Option<usize>) -> Seq<u8> {
    let k: nat = match skip {
        Some(k) => k as nat,
        None => 0,
    };
    let r: nat = match read {
        Some(r) => r as nat,
        None => usize::MAX as nat,
    };
    take_lines(drop_lines(s, k), r)
}

proof fn lemma_first_line_len(t: Seq<u8>, m: int)
    requires
        0 <= m <= t.len(),
        forall|i: int| 0 <= i < m ==> t[i] != 10,
        m == t.len() || t[m] == 10,
    ensures
        first_line_len(t) == (if m < t.len() { m + 1 } else { m }),
    decreases m,
{
    if m > 0 {
        let u = t.drop_first();
        assert forall|i: int| 0 <= i < m - 1 implies u[i] != 10 by {
            assert(u[i] == t[i + 1]);
        }
        if m - 1 < u.len() {
            assert(u[m - 1] == t[m]);
        }
        lemma_first_line_len(u, m - 1);
    }
}

proof fn lemma_first_line_len_bounds(t: Seq<u8>)
    ensures
        first_line_len(t) <= t.len(),
        t.len() > 0 ==> first_line_len(t) >= 1,
    decreases t.len(),
{
    if t.len() > 0 && t[0] != 10 {
        lemma_first_line_len_bounds(t.drop_first());
    }
}

/// Index just after the line of `s` that starts at `i`.
fn line_end(s: &[u8], i: usize) -> (j: usize)
    requires
        i < s@.len(),
    ensures
        i < j <= s@.len(),
        j - i == first_line_len(s@.skip(i as int)),
{
    let n = s.len();
    let mut j = i;
    while j < n && s[j] != 10
        invariant
            n == s@.len(),
            i <= j <= n,
            forall|k: int| i <= k < j ==> s@[k] != 10,
        decreases n - j,
    {
        j = j + 1;
    }
    let ghost t = s@.skip(i as int);
    proof {
        assert forall|k: int| 0 <= k < j - i implies t[k] != 10 by {
            assert(t[k] == s@[k + i]);
        }
        if j < n {
            assert(t[j - i] == s@[j as int]);
        }
        lemma_first_line_len(t, j - i);
    }
    if j < n {
        j + 1
    } else {
        j
    }
}

/// The bytes of `content` that a read returns (see `selected_lines`).
pub fn select_lines(content: &[u8], lines_to_skip: Option<usize>, lines_to_read: Option<usize>) -> (r: Vec<u8>)
    ensures
        r@ == selected_lines(content@, lines_to_skip, lines_to_read),
{
    let ghost s = content@;
    let n = content.len();
    let skip: usize = match lines_to_skip {
        Some(k) => k,
        None => 0,
    };
    let read: usize = match lines_to_read {
        Some(r) => r,
        None => usize::MAX,
    };
    let mut i: usize = 0;
    let mut k: usize = skip;
    assert(s.skip(0) =~= s);
    while k > 0 && i < n
        invariant
            n == s.len(),
            s == content@,
            i <= n,
            k <= skip,
            drop_lines(s, skip as nat) == drop_lines(s.skip(i as int), k as nat),
        decreases k,
    {
        let j = line_end(content, i);
        assert(s.skip(i as int).skip(j - i) =~= s.skip(j as int));
        i = j;
        k = k - 1;
    }
    if i == n {
        assert(s.skip(i as int).len() == 0);
    }
    assert(drop_lines(s, skip as nat) == s.skip(i as int));
    let start = i;
    let mut r: usize = read;
    let mut out: Vec<u8> = Vec::new();
    assert(s.subrange(start as int, start as int) =~= Seq::<u8>::empty());
    while r > 0 && i < n
        invariant
            n == s.len(),
            s == content@,
            start <= i <= n,
            r <= read,
            out@ == s.subrange(start as int, i as int),
            take_lines(s.skip(start as int), read as nat) == s.subrange(start as int, i as int)
                + take_lines(s.skip(i as int), r as nat),
        decreases r,
    {
        let j = line_end(content, i);
        let ghost t = s.skip(i as int);
        assert(t.take(j - i) =~= s.subrange(i as int, j as int));
        assert(t.skip(j - i) =~= s.skip(j as int));
        let mut p = i;
        while p < j
            invariant
                n == s.len(),
                s == content@,
                start <= i <= p <= j <= n,
                out@ == s.subrange(start as int, p as int),
            decreases j - p,
        {
            out.push(content[p]);
            p = p + 1;
            assert(out@ =~= s.subrange(start as int, p as int));
        }
        assert(s.subrange(start as int, i as int) + s.subrange(i as int, j as int) =~= s.subrange(
            start as int,
            j as int,
        ));
        i = j;
        r = r - 1;
    }
    assert(take_lines(s.skip(i as int), r as nat) =~= Seq::<u8>::empty());
    assert(out@ =~= s.subrange(start as int, i as int) + take_lines(s.skip(i as int), r as nat));
    out
}

/// A file as it was loaded: its bytes, or why it could not be opened or read.
pub enum FileLoad {
    Loaded(Vec<u8>),
    OpenFailed(String),
    ReadFailed(String),
}

pub open spec fn open_failed_message(e: Seq<char>) -> Seq<char> {
    "Unable to open file: "@ + e
}

/// What reading lines of a loaded file gives: a file that could not be opened
/// is an error, a request for no lines gives the empty text, a failed read is
/// an error, otherwise the selected lines (see `selected_lines`) decoded as
/// UTF-8, invalid sequences replaced.
pub open spec fn read_outcome(load: FileLoad, lines_to_skip: Option<usize>, lines_to_read: Option<usize>) -> Result<Seq<char>, Seq<char>> {
    match load {
        FileLoad::OpenFailed(e) => Err(open_failed_message(e@)),
        FileLoad::ReadFailed(e) => if lines_to_read == Some(0usize) {
            Ok(Seq::<char>::empty())
        } else {
            Err(e@)
        },
        FileLoad::Loaded(bytes) => if lines_to_read == Some(0usize) {
            Ok(Seq::<char>::empty())
        } else {
            Ok(utf8_lossy(selected_lines(bytes@, lines_to_skip, lines_to_read)))
        },
    }
}

/// A result of texts, by the characters of each.
pub open spec fn text_result(r: Result<String, String>) -> Result<Seq<char>, Seq<char>> {
    match r {
        Ok(t) => Ok(t@),
        Err(e) => Err(e@),
    }
}

/// Reads lines of a loaded file (see `read_outcome`).
pub fn read_file(load: FileLoad, lines_to_skip: Option<usize>, lines_to_read: Option<usize>) -> (r:
    Result<String, String>)
    ensures
        text_result(r) == read_outcome(load, lines_to_skip, lines_to_read),
        load matches FileLoad::Loaded(b) ==> (valid_utf8(b@) && lines_to_read != Some(0usize) ==> (r matches Ok(
            t,
        ) && t@ == decode_utf8(selected_lines(b@, lines_to_skip, lines_to_read)))),
{
    match load {
        FileLoad::OpenFailed(e) => {
            let mut m = String::from_str("Unable to open file: ");
            m.append(e.as_str());
            Err(m)
        },
        FileLoad::ReadFailed(e) => {
            if lines_to_read == Some(0usize) {
                Ok(String::new())
            } else {
                Err(e)
            }
        },
        FileLoad::Loaded(bytes) => {
            if lines_to_read == Some(0usize) {
                Ok(String::new())
            } else {
                let sel = select_lines(bytes.as_slice(), lines_to_skip, lines_to_read);
                proof {
                    if valid_utf8(bytes@) {
                        law_selected_lines_valid(bytes@, lines_to_skip, lines_to_read);
                    }
                }
                Ok(decode_lossy(sel.as_slice()))
            }
        },
    }
}

proof fn lemma_take_lines_all(s: Seq<u8>, n: nat)
    requires
        n >= s.len(),
    ensures
        take_lines(s, n) == s,
    decreases n,
{
    if n > 0 && s.len() > 0 {
        lemma_first_line_len_bounds(s);
        let f = first_line_len(s) as int;
        lemma_take_lines_all(s.skip(f), (n - 1) as nat);
        assert(s.take(f) + s.skip(f) =~= s);
    } else if s.len() == 0 {
        assert(take_lines(s, n) =~= s);
    }
}

proof fn lemma_take_then_drop(s: Seq<u8>, n: nat)
    ensures
        take_lines(s, n) + drop_lines(s, n) == s,
    decreases n,
{
    if n == 0 || s.len() == 0 {
        assert(Seq::<u8>::empty() + s =~= s);
    } else {
        lemma_first_line_len_bounds(s);
        let f = first_line_len(s) as int;
        lemma_take_then_drop(s.skip(f), (n - 1) as nat);
        assert(s.take(f) + take_lines(s.skip(f), (n - 1) as nat) + drop_lines(s.skip(f), (n - 1) as nat)
            =~= s.take(f) + (take_lines(s.skip(f), (n - 1) as nat) + drop_lines(s.skip(f), (n - 1) as nat)));
        assert(s.take(f) + s.skip(f) =~= s);
    }
}

proof fn lemma_drop_drop(s: Seq<u8>, a: nat, b: nat)
    ensures
        drop_lines(drop_lines(s, a), b) == drop_lines(s, a + b),
    decreases a,
{
    if a == 0 {
    } else if s.len() == 0 {
        assert(drop_lines(s, b) == s);
    } else {
        lemma_drop_drop(s.skip(first_line_len(s) as int), (a - 1) as nat, b);
        assert((a + b - 1) as nat == (a - 1) as nat + b);
    }
}

proof fn lemma_take_lines_split(s: Seq<u8>, a: nat, b: nat)
    ensures
        take_lines(s, a + b) == take_lines(s, a) + take_lines(drop_lines(s, a), b),
    decreases a,
{
    if a == 0 {
        assert(Seq::<u8>::empty() + take_lines(s, b) =~= take_lines(s, b));
    } else if s.len() == 0 {
        assert(drop_lines(s, a) == s);
        assert(take_lines(s, b) =~= Seq::<u8>::empty());
        assert(take_lines(s, a + b) =~= take_lines(s, a) + take_lines(drop_lines(s, a), b));
    } else {
        let f = first_line_len(s) as int;
        let u = s.skip(f);
        lemma_take_lines_split(u, (a - 1) as nat, b);
        assert((a + b - 1) as nat == (a - 1) as nat + b);
        assert(s.take(f) + (take_lines(u, (a - 1) as nat) + take_lines(drop_lines(u, (a - 1) as nat), b))
            =~= s.take(f) + take_lines(u, (a - 1) as nat) + take_lines(drop_lines(u, (a - 1) as nat), b));
    }
}

/// Reading with neither an offset nor a count gives the whole file, and so
/// does an offset of zero lines.
pub proof fn law_read_whole_file(s: Seq<u8>)
    requires
        s.len() <= usize::MAX,
    ensures
        selected_lines(s, None, None) == s,
        selected_lines(s, Some(0usize), None) == s,
{
    lemma_take_lines_all(s, usize::MAX as nat);
}

/// Reading `count` lines from line `offset`, then the rest from line
/// `offset + count`, gives what one read from line `offset` gives: paging
/// through a file loses and repeats nothing.
pub proof fn law_paged_reads(s: Seq<u8>, offset: usize, count: usize)
    requires
        s.len() <= usize::MAX,
        offset + count <= usize::MAX,
    ensures
        selected_lines(s, Some(offset), Some(count)) + selected_lines(
            s,
            Some((offset + count) as usize),
            None,
        ) == selected_lines(s, Some(offset), None),
{
    let x = drop_lines(s, offset as nat);
    lemma_drop_drop(s, offset as nat, count as nat);
    lemma_take_then_drop(x, count as nat);
    lemma_drop_lines_len(s, offset as nat);
    lemma_drop_lines_len(x, count as nat);
    lemma_take_lines_all(drop_lines(x, count as nat), usize::MAX as nat);
    lemma_take_lines_all(x, usize::MAX as nat);
}

proof fn lemma_drop_lines_len(s: Seq<u8>, n: nat)
    ensures
        drop_lines(s, n).len() <= s.len(),
    decreases n,
{
    if n > 0 && s.len() > 0 {
        lemma_first_line_len_bounds(s);
        lemma_drop_lines_len(s.skip(first_line_len(s) as int), (n - 1) as nat);
    }
}

/// Reading `a + b` lines from line `offset` gives the first `a` of them, then
/// the `b` lines that follow line `offset + a`.
pub proof fn law_split_reads(s: Seq<u8>, offset: usize, a: usize, b: usize)
    requires
        offset + a <= usize::MAX,
        a + b <= usize::MAX,
    ensures
        selected_lines(s, Some(offset), Some((a + b) as usize)) == selected_lines(s, Some(offset), Some(a))
            + selected_lines(s, Some((offset + a) as usize), Some(b)),
{
    lemma_take_lines_split(drop_lines(s, offset as nat), a as nat, b as nat);
    lemma_drop_drop(s, offset as nat, a as nat);
}


/// Whether a line starts at byte `i` of `s`: at its start, at its end, or
/// just after a newline.
pub open spec fn at_line_start(s: Seq<u8>, i: int) -> bool {
    0 <= i <= s.len() && (i == 0 || i == s.len() || s[i - 1] == 10)
}

/// The first line ends with its newline, or with the text.
proof fn lemma_first_line_end(t: Seq<u8>)
    requires
        t.len() > 0,
    ensures
        at_line_start(t, first_line_len(t) as int),
        first_line_len(t) >= 1,
    decreases t.len(),
{
    lemma_first_line_len_bounds(t);
    if t[0] != 10 && t.len() > 1 {
        let u = t.drop_first();
        lemma_first_line_end(u);
        let f = first_line_len(u) as int;
        if f < u.len() {
            assert(t[f] == u[f - 1]);
        }
    }
}

/// Dropping lines drops the bytes before a line start.
proof fn lemma_drop_lines_at(s: Seq<u8>, n: nat) -> (p: int)
    ensures
        at_line_start(s, p),
        drop_lines(s, n) == s.skip(p),
    decreases n,
{
    if n == 0 || s.len() == 0 {
        assert(s.skip(0) =~= s);
        0
    } else {
        let f = first_line_len(s) as int;
        lemma_first_line_end(s);
        let u = s.skip(f);
        let q = lemma_drop_lines_at(u, (n - 1) as nat);
        assert(u.skip(q) =~= s.skip(f + q));
        if 0 < q < u.len() {
            assert(s[f + q - 1] == u[q - 1]);
        }
        f + q
    }
}

/// Taking lines keeps the bytes before a line start.
proof fn lemma_take_lines_at(s: Seq<u8>, n: nat) -> (q: int)
    ensures
        at_line_start(s, q),
        take_lines(s, n) == s.take(q),
    decreases n,
{
    if n == 0 || s.len() == 0 {
        assert(s.take(0) =~= Seq::<u8>::empty());
        0
    } else {
        let f = first_line_len(s) as int;
        lemma_first_line_end(s);
        let u = s.skip(f);
        let r = lemma_take_lines_at(u, (n - 1) as nat);
        assert(s.take(f) + u.take(r) =~= s.take(f + r));
        if 0 < r < u.len() {
            assert(s[f + r - 1] == u[r - 1]);
        }
        f + r
    }
}

/// The bytes after the first scalar of valid UTF-8, and the first scalar
/// alone, are valid UTF-8.
proof fn lemma_first_scalar_valid(s: Seq<u8>)
    requires
        valid_utf8(s),
        s.len() > 0,
    ensures
        valid_utf8(s.take(length_of_first_scalar(s))),
        valid_utf8(s.skip(length_of_first_scalar(s))),
        1 <= length_of_first_scalar(s) <= s.len(),
{
    let l = length_of_first_scalar(s);
    let h = s.take(l);
    assert(pop_first_scalar(s) =~= s.skip(l));
    assert(h[0] == s[0]);
    assert(valid_first_scalar(h));
    assert(pop_first_scalar(h).len() == 0);
    reveal_with_fuel(valid_utf8, 2);
}

/// Valid UTF-8 splits into valid UTF-8 at every line start.
proof fn lemma_split_at_line_start(s: Seq<u8>, i: int)
    requires
        valid_utf8(s),
        at_line_start(s, i),
    ensures
        valid_utf8(s.take(i)),
        valid_utf8(s.skip(i)),
    decreases s.len(),
{
    if i == 0 {
        assert(s.take(0) =~= Seq::<u8>::empty());
        assert(s.skip(0) =~= s);
    } else if i == s.len() {
        assert(s.take(i) =~= s);
        assert(s.skip(i) =~= Seq::<u8>::empty());
    } else {
        let l = length_of_first_scalar(s);
        lemma_first_scalar_valid(s);
        let t = s.skip(l);
        if i - 1 < l {
            assert(i - 1 == 0) by {
                if i - 1 > 0 {
                    assert(is_continuation_byte(s[i - 1]));
                }
            }
            assert(l == 1);
            assert(s.take(i) =~= s.take(l));
            assert(s.skip(i) =~= t);
        } else {
            assert(t[i - l - 1] == s[i - 1]);
            lemma_split_at_line_start(t, i - l);
            assert(s.take(i) =~= s.take(l) + t.take(i - l));
            valid_utf8_concat(s.take(l), t.take(i - l));
            assert(s.skip(i) =~= t.skip(i - l));
        }
    }
}

/// Decoding valid UTF-8 pieces one after the other gives the decoding of the
/// whole.
proof fn lemma_decode_concat(a: Seq<u8>, b: Seq<u8>)
    requires
        valid_utf8(a),
        valid_utf8(b),
    ensures
        valid_utf8(a + b),
        decode_utf8(a + b) == decode_utf8(a) + decode_utf8(b),
    decreases a.len(),
{
    valid_utf8_concat(a, b);
    if a.len() == 0 {
        assert(a + b =~= b);
        assert(decode_utf8(a) =~= Seq::<char>::empty());
        assert(decode_utf8(a) + decode_utf8(b) =~= decode_utf8(b));
    } else {
        let l = length_of_first_scalar(a);
        lemma_first_scalar_valid(a);
        let ab = a + b;
        assert(ab[0] == a[0]);
        if l >= 2 {
            assert(ab[1] == a[1]);
        }
        if l >= 3 {
            assert(ab[2] == a[2]);
        }
        if l >= 4 {
            assert(ab[3] == a[3]);
        }
        assert(length_of_first_scalar(ab) == l);
        assert(decode_first_scalar(ab) == decode_first_scalar(a));
        assert(pop_first_scalar(ab) =~= pop_first_scalar(a) + b);
        lemma_decode_concat(pop_first_scalar(a), b);
        assert(decode_utf8(ab) =~= decode_utf8(a) + decode_utf8(b));
    }
}

/// The lines that a read selects from `s` lie between two line starts.
proof fn lemma_selected_range(s: Seq<u8>, skip: Option<usize>, read: Option<usize>) -> (pq: (int, int))
    ensures
        at_line_start(s, pq.0),
        at_line_start(s, pq.1),
        pq.0 <= pq.1,
        selected_lines(s, skip, read) == s.subrange(pq.0, pq.1),
{
    let k: nat = match skip {
        Some(k) => k as nat,
        None => 0,
    };
    let r: nat = match read {
        Some(r) => r as nat,
        None => usize::MAX as nat,
    };
    let p = lemma_drop_lines_at(s, k);
    let t = s.skip(p);
    let q = lemma_take_lines_at(t, r);
    assert(t.take(q) =~= s.subrange(p, p + q));
    if 0 < q < t.len() {
        assert(s[p + q - 1] == t[q - 1]);
    }
    (p, p + q)
}

/// Whatever lines a read selects from a file of valid UTF-8 are valid UTF-8
/// themselves: a read never cuts a character in two.
pub proof fn law_selected_lines_valid(s: Seq<u8>, skip: Option<usize>, read: Option<usize>)
    requires
        valid_utf8(s),
    ensures
        valid_utf8(selected_lines(s, skip, read)),
{
    let (p, q) = lemma_selected_range(s, skip, read);
    lemma_split_at_line_start(s, p);
    let t = s.skip(p);
    assert(at_line_start(t, q - p)) by {
        if 0 < q - p < t.len() {
            assert(t[q - p - 1] == s[q - 1]);
        }
    }
    lemma_split_at_line_start(t, q - p);
    assert(t.take(q - p) =~= s.subrange(p, q));
}

/// The paging laws hold of the text of a file of valid UTF-8 too: the text of
/// `a + b` lines from line `offset` is the text of the first `a` of them,
/// then the text of the `b` lines from line `offset + a`; reading from line
/// `offset` to the end is reading `count` lines, then the rest; and a read
/// with neither offset nor count gives the text of the whole file.
pub proof fn law_paged_text(s: Seq<u8>, offset: usize, a: usize, b: usize)
    requires
        valid_utf8(s),
        s.len() <= usize::MAX,
        offset + a <= usize::MAX,
        a + b <= usize::MAX,
    ensures
        decode_utf8(selected_lines(s, Some(offset), Some((a + b) as usize))) == decode_utf8(
            selected_lines(s, Some(offset), Some(a)),
        ) + decode_utf8(selected_lines(s, Some((offset + a) as usize), Some(b))),
        decode_utf8(selected_lines(s, Some(offset), None)) == decode_utf8(
            selected_lines(s, Some(offset), Some(a)),
        ) + decode_utf8(selected_lines(s, Some((offset + a) as usize), None)),
        decode_utf8(selected_lines(s, None, None)) == decode_utf8(s),
{
    law_split_reads(s, offset, a, b);
    law_selected_lines_valid(s, Some(offset), Some(a));
    law_selected_lines_valid(s, Some((offset + a) as usize), Some(b));
    lemma_decode_concat(
        selected_lines(s, Some(offset), Some(a)),
        selected_lines(s, Some((offset + a) as usize), Some(b)),
    );
    law_paged_reads(s, offset, a);
    law_selected_lines_valid(s, Some((offset + a) as usize), None);
    lemma_decode_concat(
        selected_lines(s, Some(offset), Some(a)),
        selected_lines(s, Some((offset + a) as usize), None),
    );
    law_read_whole_file(s);
}

} // verus!

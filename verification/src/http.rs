//! The page server: which file an HTTP request asks for, and the responses.

use vstd::prelude::*;
use vstd::string::StringSliceAdditionalSpecFns;
use crate::text::{chars_of, decimal, decimal_text, find_char, first_non_white, is_white,
    is_white_exec, push_str, string_of};

verus! {

/// The first line of a text, without its line ending (`\n` or `\r\n`), as
/// `str::lines` yields it; `None` for an empty text.
pub open spec fn first_line(s: Seq<char>) -> Option<Seq<char>> {
    if s.len() == 0 {
        None
    } else {
        let i = find_char(s, '\n');
        if i < s.len() && i > 0 && s[i - 1] == '\r' {
            Some(s.take(i - 1))
        } else {
            Some(s.take(i))
        }
    }
}

/// Index of the first white-space character, or the length if none.
pub open spec fn find_white(s: Seq<char>) -> int
    decreases s.len(),
{
    if s.len() == 0 || is_white(s[0]) {
        0
    } else {
        1 + find_white(s.drop_first())
    }
}

/// The second white-space separated word of a line, if it has two.
pub open spec fn second_word(line: Seq<char>) -> Option<Seq<char>> {
    let a = first_non_white(line);
    let b = a + find_white(line.skip(a));
    let c = b + first_non_white(line.skip(b));
    if a >= line.len() || c >= line.len() {
        None
    } else {
        let r = line.skip(c);
        Some(r.take(find_white(r)))
    }
}

/// `s` with every occurrence of `pat` removed, scanning left to right as
/// `str::replace(pat, "")` does.
pub open spec fn remove_all(s: Seq<char>, pat: Seq<char>) -> Seq<char>
    recommends
        pat.len() > 0,
    decreases s.len(),
{
    if s.len() == 0 || pat.len() == 0 {
        s
    } else if pat.len() <= s.len() && s.take(pat.len() as int) == pat {
        remove_all(s.skip(pat.len() as int), pat)
    } else {
        seq![s[0]] + remove_all(s.drop_first(), pat)
    }
}

/// `s` with every `../` and then every `..\` taken out, pass after pass,
/// until a pass takes nothing out.
pub open spec fn strip_steps(s: Seq<char>) -> Seq<char>
    decreases s.len(),
{
    let r = remove_all(remove_all(s, "../"@), "..\\"@);
    if r.len() < s.len() {
        strip_steps(r)
    } else {
        s
    }
}

/// The file a request path names: under `static/`, with every `../` and
/// `..\` step taken out (see [`strip_steps`]).
pub open spec fn file_for_path(path: Seq<char>) -> Seq<char> {
    let f = if path == "/"@ {
        "static/index.html"@
    } else {
        "static"@ + path
    };
    strip_steps(f)
}

/// Two dots then `c` stand at position `i` of `s`.
pub open spec fn dots_then(s: Seq<char>, i: int, c: char) -> bool {
    0 <= i && i + 3 <= s.len() && s[i] == '.' && s[i + 1] == '.' && s[i + 2] == c
}

/// A file name that ends in a `..` step, `/..`: it names a directory, which
/// is never served as a page.
pub open spec fn ends_in_parent_step(f: Seq<char>) -> bool {
    &&& f.len() >= 3
    &&& f[f.len() - 3] == '/' && f[f.len() - 2] == '.' && f[f.len() - 1] == '.'
}

/// Taking out a pattern that starts with `.` leaves a leading text without
/// any `.` in place.
proof fn lemma_remove_all_keeps_prefix(q: Seq<char>, r: Seq<char>, pat: Seq<char>)
    requires
        pat.len() > 0,
        pat[0] == '.',
        forall|i: int| 0 <= i < q.len() ==> q[i] != '.',
    ensures
        remove_all(q + r, pat) == q + remove_all(r, pat),
    decreases q.len(),
{
    if q.len() == 0 {
        assert(q + r =~= r);
    } else {
        let s = q + r;
        assert(s[0] == q[0]);
        if pat.len() <= s.len() {
            assert(s.take(pat.len() as int)[0] != pat[0]);
        }
        assert(s.drop_first() =~= q.drop_first() + r);
        lemma_remove_all_keeps_prefix(q.drop_first(), r, pat);
        assert(seq![q[0]] + (q.drop_first() + remove_all(r, pat)) =~= q + remove_all(r, pat));
    }
}

/// Taking out every "two dots then `x`" never lengthens a text; it keeps
/// the length only when there was none, and then the text is unchanged.
proof fn lemma_remove_all_shrinks(s: Seq<char>, x: char)
    requires
        x != '.',
    ensures
        remove_all(s, seq!['.', '.', x]).len() <= s.len(),
        remove_all(s, seq!['.', '.', x]).len() == s.len() ==> remove_all(s, seq!['.', '.', x]) == s
            && forall|i: int| !dots_then(s, i, x),
    decreases s.len(),
{
    let pat = seq!['.', '.', x];
    if s.len() == 0 {
        assert(remove_all(s, pat) == s);
    } else if pat.len() <= s.len() && s.take(3) == pat {
        lemma_remove_all_shrinks(s.skip(3), x);
        assert(remove_all(s, pat) == remove_all(s.skip(3), pat));
    } else {
        let t = s.drop_first();
        lemma_remove_all_shrinks(t, x);
        let r = remove_all(s, pat);
        assert(r == seq![s[0]] + remove_all(t, pat));
        if r.len() == s.len() {
            assert(r =~= s);
            assert forall|i: int| !dots_then(s, i, x) by {
                if dots_then(s, i, x) {
                    if i == 0 {
                        assert(s.take(3) =~= pat);
                    } else {
                        assert(dots_then(t, i - 1, x));
                    }
                }
            }
        }
    }
}

/// Taking out "two dots then `x`" from a text that has none leaves it as it
/// is.
proof fn lemma_remove_all_noop(s: Seq<char>, x: char)
    requires
        forall|i: int| !dots_then(s, i, x),
    ensures
        remove_all(s, seq!['.', '.', x]) == s,
    decreases s.len(),
{
    let pat = seq!['.', '.', x];
    if s.len() == 0 {
    } else {
        if pat.len() <= s.len() && s.take(3) == pat {
            assert(s[0] == '.' && s[1] == '.' && s[2] == x);
            assert(dots_then(s, 0, x));
        }
        let t = s.drop_first();
        assert forall|i: int| !dots_then(t, i, x) by {
            if dots_then(t, i, x) {
                assert(dots_then(s, i + 1, x));
            }
        }
        lemma_remove_all_noop(t, x);
        assert(seq![s[0]] + t =~= s);
    }
}

/// Law: a request path other than `/` that holds no `../` and no `..\`
/// names `static` followed by the path itself, character for character.
pub proof fn lemma_file_for_plain_path(path: Seq<char>)
    requires
        forall|i: int| !dots_then(path, i, '/'),
        forall|i: int| !dots_then(path, i, '\\'),
    ensures
        path != "/"@ ==> file_for_path(path) == "static"@ + path,
{
    reveal_strlit("static");
    reveal_strlit("../");
    reveal_strlit("..\\");
    if path != "/"@ {
        let q = "static"@;
        let f = q + path;
        assert("../"@ =~= seq!['.', '.', '/']);
        assert("..\\"@ =~= seq!['.', '.', '\\']);
        lemma_remove_all_keeps_prefix(q, path, "../"@);
        lemma_remove_all_noop(path, '/');
        lemma_remove_all_keeps_prefix(q, path, "..\\"@);
        lemma_remove_all_noop(path, '\\');
        assert(remove_all(remove_all(f, "../"@), "..\\"@) == f);
        assert(strip_steps(f) == f);
    }
}

/// What the passes leave holds neither a `../` nor a `..\`.
proof fn lemma_strip_steps_clean(s: Seq<char>)
    ensures
        forall|i: int| !dots_then(strip_steps(s), i, '/'),
        forall|i: int| !dots_then(strip_steps(s), i, '\\'),
    decreases s.len(),
{
    reveal_strlit("../");
    reveal_strlit("..\\");
    assert("../"@ =~= seq!['.', '.', '/']);
    assert("..\\"@ =~= seq!['.', '.', '\\']);
    let r1 = remove_all(s, "../"@);
    let r = remove_all(r1, "..\\"@);
    lemma_remove_all_shrinks(s, '/');
    lemma_remove_all_shrinks(r1, '\\');
    if r.len() < s.len() {
        lemma_strip_steps_clean(r);
        assert(strip_steps(s) == strip_steps(r));
    } else {
        assert(strip_steps(s) == s);
        assert(r1.len() == s.len());
        assert(r1 == s);
        assert(forall|i: int| !dots_then(s, i, '/'));
        assert(remove_all(s, seq!['.', '.', '\\']).len() == s.len());
        assert(forall|i: int| !dots_then(s, i, '\\'));
    }
}

/// The passes leave a leading `static` in place.
proof fn lemma_strip_steps_keeps_static(rest: Seq<char>)
    ensures
        strip_steps("static"@ + rest).len() >= 6,
        strip_steps("static"@ + rest).take(6) == "static"@,
    decreases rest.len(),
{
    reveal_strlit("static");
    reveal_strlit("../");
    reveal_strlit("..\\");
    let q = "static"@;
    let s = q + rest;
    lemma_remove_all_keeps_prefix(q, rest, "../"@);
    let rest1 = remove_all(rest, "../"@);
    lemma_remove_all_keeps_prefix(q, rest1, "..\\"@);
    let rest2 = remove_all(rest1, "..\\"@);
    let r = remove_all(remove_all(s, "../"@), "..\\"@);
    assert(r == q + rest2);
    if r.len() < s.len() {
        lemma_strip_steps_keeps_static(rest2);
    } else {
        assert(strip_steps(s) == s);
        assert(s.take(6) =~= q);
    }
}

/// Law: the file a request path names always begins with `static` and holds
/// no `../` and no `..\` step, whatever the path.
pub proof fn lemma_file_for_path_safe(path: Seq<char>)
    ensures
        file_for_path(path).len() >= 6,
        file_for_path(path).take(6) == "static"@,
        forall|i: int| !dots_then(file_for_path(path), i, '/'),
        forall|i: int| !dots_then(file_for_path(path), i, '\\'),
{
    reveal_strlit("static");
    reveal_strlit("static/index.html");
    reveal_strlit("/index.html");
    let q = "static"@;
    let rest = if path == "/"@ {
        "/index.html"@
    } else {
        path
    };
    assert("static/index.html"@ =~= q + "/index.html"@);
    lemma_strip_steps_keeps_static(rest);
    lemma_strip_steps_clean(q + rest);
}

/// The file an HTTP request asks for, from the path (second word) of its
/// request line; `None` means the answer is "404 Not Found": there is no
/// path, or the file name would end in a `..` step.
pub open spec fn route_spec(request: Seq<char>) -> Option<Seq<char>> {
    match first_line(request) {
        None => None,
        Some(line) => match second_word(line) {
            None => None,
            Some(path) => if ends_in_parent_step(file_for_path(path)) {
                None
            } else {
                Some(file_for_path(path))
            },
        },
    }
}

proof fn lemma_find_white(s: Seq<char>, i: int)
    requires
        0 <= i <= s.len(),
        forall|k: int| 0 <= k < i ==> !is_white(#[trigger] s[k]),
        i == s.len() || is_white(s[i]),
    ensures
        find_white(s) == i,
    decreases s.len(),
{
    if i > 0 {
        let t = s.drop_first();
        assert forall|k: int| 0 <= k < i - 1 implies !is_white(#[trigger] t[k]) by {
            assert(t[k] == s[k + 1]);
        }
        if i < s.len() {
            assert(t[i - 1] == s[i]);
        }
        lemma_find_white(t, i - 1);
    }
}

proof fn lemma_first_non_white_at(s: Seq<char>, i: int)
    requires
        0 <= i <= s.len(),
        forall|k: int| 0 <= k < i ==> is_white(#[trigger] s[k]),
        i == s.len() || !is_white(s[i]),
    ensures
        first_non_white(s) == i,
    decreases s.len(),
{
    if i > 0 {
        let t = s.drop_first();
        assert forall|k: int| 0 <= k < i - 1 implies is_white(#[trigger] t[k]) by {
            assert(t[k] == s[k + 1]);
        }
        if i < s.len() {
            assert(t[i - 1] == s[i]);
        }
        lemma_first_non_white_at(t, i - 1);
    }
}

/// From `from`, the first index in `v[..to]` holding white space (`want`
/// true) or not (`want` false), or `to`.
fn scan(v: &Vec<char>, from: usize, to: usize, want: bool) -> (i: usize)
    requires
        from <= to <= v@.len(),
    ensures
        from <= i <= to,
        forall|k: int| from <= k < i ==> is_white(#[trigger] v@[k]) != want,
        i == to || is_white(v@[i as int]) == want,
{
    let mut i = from;
    while i < to && is_white_exec(v[i]) != want
        invariant
            from <= i <= to,
            to <= v@.len(),
            forall|k: int| from <= k < i ==> is_white(#[trigger] v@[k]) != want,
        decreases to - i,
    {
        i = i + 1;
    }
    i
}

fn matches_at(v: &Vec<char>, i: usize, pat: &Vec<char>) -> (b: bool)
    requires
        i <= v@.len(),
    ensures
        b == (pat@.len() <= v@.len() - i && v@.subrange(i as int, i + pat@.len()) == pat@),
{
    if pat.len() > v.len() - i {
        return false;
    }
    let vl = v.len();
    let mut k: usize = 0;
    while k < pat.len()
        invariant
            vl == v@.len(),
            i <= v@.len(),
            pat@.len() <= v@.len() - i,
            k <= pat@.len(),
            forall|q: int| 0 <= q < k ==> v@[i + q] == pat@[q],
        decreases pat@.len() - k,
    {
        if v[i + k] != pat[k] {
            assert(v@.subrange(i as int, i + pat@.len())[k as int] != pat@[k as int]);
            return false;
        }
        k = k + 1;
    }
    proof {
        assert(v@.subrange(i as int, i + pat@.len()) =~= pat@);
    }
    true
}

/// Removes every occurrence of `pat` from `v`, left to right.
fn remove_all_exec(v: &Vec<char>, pat: &str) -> (out: Vec<char>)
    requires
        pat@.len() > 0,
    ensures
        out@ == remove_all(v@, pat@),
{
    let p = chars_of(pat);
    let n = v.len();
    let mut out: Vec<char> = Vec::new();
    let mut i: usize = 0;
    proof {
        assert(v@.skip(0) =~= v@);
    }
    while i < n
        invariant
            n == v@.len(),
            i <= n,
            p@ == pat@,
            p@.len() > 0,
            remove_all(v@, pat@) == out@ + remove_all(v@.skip(i as int), pat@),
        decreases n - i,
    {
        let ghost rest = v@.skip(i as int);
        if matches_at(v, i, &p) {
            proof {
                assert(rest.take(p@.len() as int) =~= v@.subrange(i as int, i + p@.len()));
                assert(rest.skip(p@.len() as int) =~= v@.skip(i + p@.len()));
            }
            i = i + p.len();
        } else {
            proof {
                if p@.len() <= rest.len() {
                    assert(rest.take(p@.len() as int) =~= v@.subrange(i as int, i + p@.len()));
                }
                assert(rest.drop_first() =~= v@.skip(i + 1));
                assert(rest[0] == v@[i as int]);
            }
            let ghost before = out@;
            out.push(v[i]);
            proof {
                assert(before + (seq![v@[i as int]] + remove_all(v@.skip(i + 1), pat@)) =~= out@
                    + remove_all(v@.skip(i + 1), pat@));
            }
            i = i + 1;
        }
    }
    proof {
        assert(v@.skip(n as int) =~= Seq::<char>::empty());
        assert(out@ + Seq::<char>::empty() =~= out@);
    }
    out
}

/// Where the second word of the line `v[..end]` lies, if there is one.
fn second_word_bounds(v: &Vec<char>, end: usize) -> (r: Option<(usize, usize)>)
    requires
        end <= v@.len(),
    ensures
        match second_word(v@.take(end as int)) {
            None => r is None,
            Some(w) => r matches Some((c, d)) && c <= d <= end && v@.subrange(c as int, d as int)
                == w,
        },
{
    let ghost line = v@.take(end as int);
    let a = scan(v, 0, end, false);
    let b = scan(v, a, end, true);
    let c = scan(v, b, end, false);
    proof {
        assert forall|k: int| 0 <= k < a implies is_white(#[trigger] line[k]) by {
            assert(line[k] == v@[k]);
        }
        if a < end {
            assert(line[a as int] == v@[a as int]);
        }
        lemma_first_non_white_at(line, a as int);
        let l1 = line.skip(a as int);
        assert forall|k: int| 0 <= k < b - a implies !is_white(#[trigger] l1[k]) by {
            assert(l1[k] == v@[a + k]);
        }
        if b < end {
            assert(l1[b - a] == v@[b as int]);
        }
        lemma_find_white(l1, b - a);
        let l2 = line.skip(b as int);
        assert forall|k: int| 0 <= k < c - b implies is_white(#[trigger] l2[k]) by {
            assert(l2[k] == v@[b + k]);
        }
        if c < end {
            assert(l2[c - b] == v@[c as int]);
        }
        lemma_first_non_white_at(l2, c - b);
    }
    if a >= end || c >= end {
        return None;
    }
    let d = scan(v, c, end, true);
    proof {
        let r = line.skip(c as int);
        assert forall|k: int| 0 <= k < d - c implies !is_white(#[trigger] r[k]) by {
            assert(r[k] == v@[c + k]);
        }
        if d < end {
            assert(r[d - c] == v@[d as int]);
        }
        lemma_find_white(r, d - c);
        assert(r.take(d - c) =~= v@.subrange(c as int, d as int));
    }
    Some((c, d))
}

/// The file a request path names (see [`file_for_path`]): under `static/`,
/// with no `../` or `..\` step left in it.
pub fn file_for(path: &str) -> (f: String)
    ensures
        f@ == file_for_path(path@),
        f@.len() >= 6,
        f@.take(6) == "static"@,
        forall|i: int| !dots_then(f@, i, '/'),
        forall|i: int| !dots_then(f@, i, '\\'),
{
    let slash = chars_of("/");
    let pv = chars_of(path);
    let root = pv.len() == 1 && matches_at(&pv, 0, &slash);
    proof {
        assert(pv@.subrange(0, pv@.len() as int) =~= pv@);
        reveal_strlit("/");
        if pv@ == "/"@ {
            assert(root);
        }
        if root {
            assert(pv@ == "/"@);
        }
    }
    let mut file = String::new();
    if root {
        push_str(&mut file, "static/index.html");
    } else {
        push_str(&mut file, "static");
        push_str(&mut file, path);
    }
    proof {
        if root {
            assert(file@ =~= "static/index.html"@);
        } else {
            assert(file@ =~= "static"@ + path@);
        }
        reveal_strlit("../");
        reveal_strlit("..\\");
    }
    let ghost target = file_for_path(path@);
    let mut v = chars_of(file.as_str());
    loop
        invariant
            strip_steps(v@) == target,
        ensures
            v@ == target,
        decreases v@.len(),
    {
        proof {
            reveal_strlit("../");
            reveal_strlit("..\\");
        }
        let once = remove_all_exec(&v, "../");
        let twice = remove_all_exec(&once, "..\\");
        if twice.len() < v.len() {
            v = twice;
        } else {
            proof {
                assert(strip_steps(v@) == v@);
            }
            break;
        }
    }
    let out = string_of(&v, 0, v.len());
    proof {
        assert(v@.subrange(0, v@.len() as int) =~= v@);
        lemma_file_for_path_safe(path@);
    }
    out
}

/// The file an HTTP request asks for (see [`route_spec`]); `None` when the
/// request has no request line with a path, or the file name would end in a
/// `..` step, which is answered with 404. A file it names begins with
/// `static` and holds no `..` step at all.
pub fn route_request(request: &str) -> (r: Option<String>)
    ensures
        match route_spec(request@) {
            None => r is None,
            Some(f) => r matches Some(s) && s@ == f,
        },
        r matches Some(s) ==> s@.take(6) == "static"@ && !ends_in_parent_step(s@) && (forall|i: int|
            !dots_then(s@, i, '/')) && (forall|i: int| !dots_then(s@, i, '\\')),
{
    let v = chars_of(request);
    let n = v.len();
    if n == 0 {
        return None;
    }
    let nl = crate::text::find_char_in(&v, 0, n, '\n');
    proof {
        assert(v@.subrange(0, n as int) =~= v@);
    }
    let end = if nl < n && nl > 0 && v[nl - 1] == '\r' {
        nl - 1
    } else {
        nl
    };
    proof {
        assert(first_line(request@) == Some(v@.take(end as int)));
    }
    match second_word_bounds(&v, end) {
        None => None,
        Some((c, d)) => {
            let path = string_of(&v, c, d);
            let file = file_for(path.as_str());
            let fv = chars_of(file.as_str());
            let k = fv.len();
            if k >= 3 && fv[k - 3] == '/' && fv[k - 2] == '.' && fv[k - 1] == '.' {
                None
            } else {
                Some(file)
            }
        },
    }
}

/// The response that serves a page.
pub open spec fn ok_response_spec(content: Seq<char>) -> Seq<char> {
    "HTTP/1.1 200 OK\r\nContent-Type: text/html; charset=utf-8\r\nContent-Length: "@ + decimal_text(
        vstd::utf8::encode_utf8(content).len(),
    )
        + "\r\nCache-Control: no-cache, no-store, must-revalidate\r\nPragma: no-cache\r\nExpires: 0\r\nConnection: close\r\n\r\n"@
        + content
}

/// Builds the response that serves a page; its length header counts bytes.
pub fn ok_response(content: &str) -> (s: String)
    ensures
        s@ == ok_response_spec(content@),
{
    let mut s = String::from_str(
        "HTTP/1.1 200 OK\r\nContent-Type: text/html; charset=utf-8\r\nContent-Length: ",
    );
    let len = decimal(content.as_bytes().len());
    push_str(&mut s, len.as_str());
    push_str(
        &mut s,
        "\r\nCache-Control: no-cache, no-store, must-revalidate\r\nPragma: no-cache\r\nExpires: 0\r\nConnection: close\r\n\r\n",
    );
    push_str(&mut s, content);
    s
}

/// The response for a missing page.
pub fn not_found_response() -> (s: String)
    ensures
        s@ == "HTTP/1.1 404 Not Found\r\nContent-Type: text/plain\r\nContent-Length: 9\r\nConnection: close\r\n\r\nNot Found"@,
{
    String::from_str(
        "HTTP/1.1 404 Not Found\r\nContent-Type: text/plain\r\nContent-Length: 9\r\nConnection: close\r\n\r\nNot Found",
    )
}

} // verus!

//! The asset host: requests, responses and what is logged of them.

use crate::text::{cat3, cat5, chars_of, lossy_text, same_text, size_text, space, strip, text_of};
use crate::text::{begins_with, is_space, lossy_utf8, numeral, occurs_at, stripped, trimmed_start};
use crate::text::{digits_value, lemma_numeral_read};
use vstd::prelude::*;
use vstd::slice::{slice_subrange, slice_to_vec};
use vstd::utf8::{encode_utf8, is_ascii_chars, is_ascii_chars_encode_utf8};

verus! {

/// The name under which the asset host is known.
pub fn asset_host_url() -> (r: String)
    ensures
        r@ == "in-memory://asset-host"@,
{
    "in-memory://asset-host".to_owned()
}

/// The text of the request for an asset.
pub open spec fn request_text(path: Seq<char>) -> Seq<char> {
    "GET /"@ + stripped(path, "/"@)
        + " HTTP/1.1\r\nHost: asset-host\r\nConnection: close\r\n\r\n"@
}

/// The request for an asset. One leading slash of the path makes no difference.
pub fn asset_request_text(path: &str) -> (r: String)
    ensures
        r@ == request_text(path@),
{
    cat3(
        "GET /",
        strip(path, "/").as_str(),
        " HTTP/1.1\r\nHost: asset-host\r\nConnection: close\r\n\r\n",
    )
}

/// The bytes that end the head of a response.
pub open spec fn head_end() -> Seq<u8> {
    seq![13u8, 10u8, 13u8, 10u8]
}

/// Whether the head of a response ends first at position `i`.
pub open spec fn ends_head(response: Seq<u8>, i: int) -> bool {
    occurs_at(response, head_end(), i) && forall|j: int|
        0 <= j < i ==> !#[trigger] occurs_at(response, head_end(), j)
}

/// Whether `body` is what follows the head of a response: all of it, if it has no head.
pub open spec fn is_body(response: Seq<u8>, body: Seq<u8>) -> bool {
    if exists|i: int| 0 <= i && #[trigger] occurs_at(response, head_end(), i) {
        exists|i: int| 0 <= i && #[trigger] ends_head(response, i) && body == response.skip(i + 4)
    } else {
        body == response
    }
}

/// What follows the head of a response.
pub fn response_body(response: Vec<u8>) -> (r: Vec<u8>)
    ensures
        is_body(response@, r@),
{
    let ghost s = response@;
    let n: usize = response.len();
    let mut i: usize = 0;
    while i < n && n - i >= 4
        invariant
            i <= n,
            n == response@.len(),
            s == response@,
            forall|j: int| 0 <= j < i ==> !#[trigger] occurs_at(s, head_end(), j),
        decreases n - i,
    {
        if response[i] == 13 && response[i + 1] == 10 && response[i + 2] == 13 && response[i + 3]
            == 10 {
            assert(s.subrange(i as int, i + 4) =~= head_end());
            assert(occurs_at(s, head_end(), i as int));
            assert(ends_head(s, i as int));
            let body = slice_to_vec(slice_subrange(response.as_slice(), i + 4, n));
            assert(body@ =~= s.skip(i + 4));
            return body;
        }
        assert(!occurs_at(s, head_end(), i as int)) by {
            if occurs_at(s, head_end(), i as int) {
                let p = s.subrange(i as int, i + 4);
                assert(p[0] == s[i as int] && p[1] == s[i + 1] && p[2] == s[i + 2] && p[3] == s[i
                    + 3]);
                assert(p == head_end());
            }
        }
        i += 1;
    }
    assert forall|j: int| 0 <= j implies !#[trigger] occurs_at(s, head_end(), j) by {
        if j >= i && occurs_at(s, head_end(), j) {
            assert(j + 4 <= n);
        }
    }
    response
}

/// The characters up to the first line feed.
pub open spec fn first_line(s: Seq<char>) -> Seq<char>
    decreases s.len(),
{
    if s.len() == 0 || s[0] == '\n' {
        Seq::empty()
    } else {
        seq![s[0]] + first_line(s.drop_first())
    }
}

/// The characters up to the first white space.
pub open spec fn leading_word(s: Seq<char>) -> Seq<char>
    decreases s.len(),
{
    if s.len() == 0 || is_space(s[0]) {
        Seq::empty()
    } else {
        seq![s[0]] + leading_word(s.drop_first())
    }
}

/// The first word of a text; empty if it has none.
pub open spec fn first_word(s: Seq<char>) -> Seq<char> {
    leading_word(trimmed_start(s))
}

/// What follows the first word of a text.
pub open spec fn after_word(s: Seq<char>) -> Seq<char> {
    trimmed_start(s).skip(first_word(s).len() as int)
}

proof fn lemma_first_line(s: Seq<char>, k: int)
    requires
        0 <= k <= s.len(),
        forall|j: int| 0 <= j < k ==> s[j] != '\n',
        k < s.len() ==> s[k] == '\n',
    ensures
        first_line(s) == s.take(k),
    decreases k,
{
    if k == 0 {
        assert(s.take(0) =~= Seq::<char>::empty());
    } else {
        let t = s.drop_first();
        assert forall|j: int| 0 <= j < k - 1 implies t[j] != '\n' by {
            assert(t[j] == s[j + 1]);
        }
        lemma_first_line(t, k - 1);
        assert(seq![s[0]] + t.take(k - 1) =~= s.take(k));
    }
}

proof fn lemma_leading_word(s: Seq<char>, k: int)
    requires
        0 <= k <= s.len(),
        forall|j: int| 0 <= j < k ==> !is_space(#[trigger] s[j]),
        k < s.len() ==> is_space(s[k]),
    ensures
        leading_word(s) == s.take(k),
    decreases k,
{
    if k == 0 {
        assert(s.take(0) =~= Seq::<char>::empty());
    } else {
        let t = s.drop_first();
        assert forall|j: int| 0 <= j < k - 1 implies !is_space(#[trigger] t[j]) by {
            assert(t[j] == s[j + 1]);
        }
        assert(!is_space(s[0]));
        lemma_leading_word(t, k - 1);
        assert(seq![s[0]] + t.take(k - 1) =~= s.take(k));
    }
}

proof fn lemma_trimmed_start(s: Seq<char>, k: int)
    requires
        0 <= k <= s.len(),
        forall|j: int| 0 <= j < k ==> is_space(#[trigger] s[j]),
        k < s.len() ==> !is_space(s[k]),
    ensures
        trimmed_start(s) == s.skip(k),
    decreases k,
{
    if k == 0 {
        assert(s.skip(0) =~= s);
    } else {
        let t = s.drop_first();
        assert forall|j: int| 0 <= j < k - 1 implies is_space(#[trigger] t[j]) by {
            assert(t[j] == s[j + 1]);
        }
        assert(is_space(s[0]));
        lemma_trimmed_start(t, k - 1);
        assert(t.skip(k - 1) =~= s.skip(k));
    }
}

/// The first word of the characters from `from` to `to`, and where it ends.
fn take_word(chars: &Vec<char>, from: usize, to: usize) -> (r: (String, usize))
    requires
        from <= to <= chars@.len(),
    ensures
        from <= r.1 <= to,
        r.0@ == first_word(chars@.subrange(from as int, to as int)),
        chars@.subrange(r.1 as int, to as int) == after_word(
            chars@.subrange(from as int, to as int),
        ),
{
    let ghost s = chars@.subrange(from as int, to as int);
    let mut i: usize = from;
    while i < to && space(chars[i])
        invariant
            from <= i <= to <= chars@.len(),
            forall|j: int| from <= j < i ==> is_space(#[trigger] chars@[j]),
        decreases to - i,
    {
        i += 1;
    }
    let ghost k = i - from;
    proof {
        assert forall|j: int| 0 <= j < k implies is_space(#[trigger] s[j]) by {
            assert(s[j] == chars@[from + j]);
        }
        lemma_trimmed_start(s, k);
    }
    let ghost t = s.skip(k);
    assert(t =~= chars@.subrange(i as int, to as int));
    let mut e: usize = i;
    while e < to && !space(chars[e])
        invariant
            from <= i <= e <= to <= chars@.len(),
            forall|j: int| i <= j < e ==> !is_space(#[trigger] chars@[j]),
        decreases to - e,
    {
        e += 1;
    }
    let ghost n = e - i;
    proof {
        assert forall|j: int| 0 <= j < n implies !is_space(#[trigger] t[j]) by {
            assert(t[j] == chars@[i + j]);
        }
        lemma_leading_word(t, n);
        assert(t.take(n) =~= chars@.subrange(i as int, e as int));
        assert(t.skip(n) =~= chars@.subrange(e as int, to as int));
    }
    (text_of(chars, i, e), e)
}

/// The method and the path of a request: the first two words of its first line. Without a second
/// word the path is the root.
pub open spec fn request_parts(s: Seq<char>) -> (Seq<char>, Seq<char>) {
    let line = first_line(s);
    let second = first_word(after_word(line));
    (
        first_word(line),
        if second.len() == 0 {
            "/"@
        } else {
            second
        },
    )
}

/// Reads the method and the path of a request.
pub fn parse_request(request: &str) -> (r: (String, String))
    ensures
        (r.0@, r.1@) == request_parts(request@),
{
    let chars = chars_of(request);
    let n: usize = chars.len();
    let mut end: usize = 0;
    while end < n && chars[end] != '\n'
        invariant
            end <= n,
            n == chars@.len(),
            forall|j: int| 0 <= j < end ==> chars@[j] != '\n',
        decreases n - end,
    {
        end += 1;
    }
    proof {
        lemma_first_line(request@, end as int);
        assert(request@.take(end as int) =~= chars@.subrange(0, end as int));
    }
    let (method, next) = take_word(&chars, 0, end);
    let (second, _) = take_word(&chars, next, end);
    if second.as_str().unicode_len() == 0 {
        (method, "/".to_owned())
    } else {
        (method, second)
    }
}

/// A path without its leading slashes.
pub open spec fn unrooted(s: Seq<char>) -> Seq<char>
    decreases s.len(),
{
    if s.len() > 0 && s[0] == '/' {
        unrooted(s.drop_first())
    } else {
        s
    }
}

/// The path of the file, below the root, that a request asks for.
pub open spec fn file_path(path: Seq<char>) -> Seq<char> {
    if unrooted(path).len() == 0 {
        "index.html"@
    } else {
        unrooted(path)
    }
}

proof fn lemma_unrooted(s: Seq<char>, k: int)
    requires
        0 <= k <= s.len(),
        forall|j: int| 0 <= j < k ==> s[j] == '/',
        k < s.len() ==> s[k] != '/',
    ensures
        unrooted(s) == s.skip(k),
    decreases k,
{
    if k == 0 {
        assert(s.skip(0) =~= s);
    } else {
        let t = s.drop_first();
        assert forall|j: int| 0 <= j < k - 1 implies t[j] == '/' by {
            assert(t[j] == s[j + 1]);
        }
        lemma_unrooted(t, k - 1);
        assert(t.skip(k - 1) =~= s.skip(k));
    }
}

fn safe_path(path: &str) -> (r: String)
    ensures
        r@ == file_path(path@),
{
    let chars = chars_of(path);
    let n: usize = chars.len();
    let mut i: usize = 0;
    while i < n && chars[i] == '/'
        invariant
            i <= n,
            n == chars@.len(),
            forall|j: int| 0 <= j < i ==> chars@[j] == '/',
        decreases n - i,
    {
        i += 1;
    }
    proof {
        lemma_unrooted(path@, i as int);
    }
    if i == n {
        return "index.html".to_owned();
    }
    let r = text_of(&chars, i, n);
    assert(r@ =~= path@.skip(i as int));
    r
}

/// A response without a body, and the line that is logged of it, if any is.
#[derive(Debug)]
pub struct EmptyResponse {
    pub response: String,
    pub log: Option<String>,
}

/// A request for a file: the path as it was asked for, and the path of the file below the root.
#[derive(Debug)]
pub struct FileRequest {
    pub method: String,
    pub path: String,
    pub file: String,
}

/// What is done about a request.
#[derive(Debug)]
pub enum AssetStep {
    /// It is answered at once.
    Answer(EmptyResponse),
    /// A file is looked for.
    Find(FileRequest),
}

/// What is logged of a request that is refused.
pub open spec fn refusal_log(method: Seq<char>, path: Seq<char>, why: Seq<char>) -> Seq<char> {
    "[WARN][AssetHost] "@ + method + " "@ + path + why
}

fn refusal_line(method: &str, path: &str, why: &str) -> (r: String)
    ensures
        r@ == refusal_log(method@, path@, why@),
{
    cat5("[WARN][AssetHost] ", method, " ", path, why)
}

/// Decides what is done about a request. Only `GET` is allowed.
pub fn plan_asset(request: &[u8]) -> (r: AssetStep)
    ensures
        ({
            let (method, path) = request_parts(lossy_utf8(request@));
            if method == "GET"@ {
                r matches AssetStep::Find(f) && f.method@ == method && f.path@ == path && f.file@
                    == file_path(path)
            } else {
                r matches AssetStep::Answer(a) && a.response@
                    == "HTTP/1.1 405 Method Not Allowed\r\nContent-Length: 0\r\n\r\n"@ && (
                a.log matches Some(l) && l@ == refusal_log(
                    method,
                    path,
                    " - 405 Method Not Allowed"@,
                ))
            }
        }),
{
    let text = lossy_text(request);
    let (method, path) = parse_request(text.as_str());
    if !same_text(method.as_str(), "GET") {
        let log = refusal_line(method.as_str(), path.as_str(), " - 405 Method Not Allowed");
        return AssetStep::Answer(
            EmptyResponse {
                response: "HTTP/1.1 405 Method Not Allowed\r\nContent-Length: 0\r\n\r\n".to_owned(),
                log: Some(log),
            },
        );
    }
    let file = safe_path(path.as_str());
    AssetStep::Find(FileRequest { method, path, file })
}

/// The answer to a request for a file that lies outside of the root.
pub fn forbidden(q: &FileRequest) -> (r: EmptyResponse)
    ensures
        r.response@ == "HTTP/1.1 403 Forbidden\r\nContent-Length: 0\r\n\r\n"@,
        r.log matches Some(l) && l@ == refusal_log(
            q.method@,
            q.path@,
            " - 403 Forbidden (path traversal)"@,
        ),
{
    EmptyResponse {
        response: "HTTP/1.1 403 Forbidden\r\nContent-Length: 0\r\n\r\n".to_owned(),
        log: Some(
            refusal_line(
                q.method.as_str(),
                q.path.as_str(),
                " - 403 Forbidden (path traversal)",
            ),
        ),
    }
}

/// The answer to a request for a file that cannot be read.
pub fn not_found() -> (r: EmptyResponse)
    ensures
        r.response@ == "HTTP/1.1 404 Not Found\r\nContent-Length: 0\r\n\r\n"@,
        r.log is None,
{
    EmptyResponse {
        response: "HTTP/1.1 404 Not Found\r\nContent-Length: 0\r\n\r\n".to_owned(),
        log: None,
    }
}

/// What follows the last `c` of a text; all of it where there is none.
pub open spec fn after_last(s: Seq<char>, c: char) -> Seq<char>
    decreases s.len(),
{
    if s.len() == 0 || s.last() == c {
        Seq::empty()
    } else {
        after_last(s.drop_last(), c).push(s.last())
    }
}

/// The last name in a path with slashes between its names. Neither a slash at the end of a path nor
/// a single dot behind a slash is a name.
pub open spec fn last_name(path: Seq<char>) -> Seq<char>
    decreases path.len(),
{
    let name = after_last(path, '/');
    if name.len() < path.len() && (name.len() == 0 || name == seq!['.']) {
        last_name(path.take(path.len() - name.len() - 1))
    } else {
        name
    }
}

/// The names in a path, in their order: what stands between its slashes, and first the slash itself
/// if the path begins with one. Nothing between two slashes is no name, and neither is a single dot
/// behind a slash.
pub open spec fn path_names(path: Seq<char>) -> Seq<Seq<char>>
    decreases path.len(),
{
    let name = after_last(path, '/');
    if path.len() == 0 {
        Seq::empty()
    } else if name.len() >= path.len() {
        seq![path]
    } else {
        let front = path.take(path.len() - name.len() - 1);
        let names = if front.len() == 0 {
            seq![seq!['/']]
        } else {
            path_names(front)
        };
        if name.len() == 0 || name == seq!['.'] {
            names
        } else {
            names.push(name)
        }
    }
}

/// The extension of the last name in a path: what follows its last dot. A name without a dot has
/// none, and neither has one whose only dot comes first.
pub open spec fn extension(path: Seq<char>) -> Seq<char> {
    let name = last_name(path);
    let ending = after_last(name, '.');
    if ending.len() + 1 < name.len() {
        ending
    } else {
        Seq::empty()
    }
}

proof fn lemma_after_last(s: Seq<char>, c: char, i: int)
    requires
        0 <= i <= s.len(),
        i > 0 ==> s[i - 1] == c,
        forall|j: int| i <= j < s.len() ==> s[j] != c,
    ensures
        after_last(s, c) == s.skip(i),
    decreases s.len() - i,
{
    if i < s.len() {
        let t = s.drop_last();
        lemma_after_last(t, c, i);
        assert(t.skip(i).push(s.last()) =~= s.skip(i));
    } else {
        assert(s.skip(i) =~= Seq::<char>::empty());
    }
}

/// Where that begins which follows the last `c` of the first `to` characters from `from` on.
fn last_part(chars: &Vec<char>, from: usize, to: usize, c: char) -> (r: usize)
    requires
        from <= to <= chars@.len(),
    ensures
        from <= r <= to,
        after_last(chars@.subrange(from as int, to as int), c) == chars@.subrange(
            r as int,
            to as int,
        ),
        r > from ==> chars@[r - 1] == c,
{
    let ghost s = chars@.subrange(from as int, to as int);
    let mut i: usize = to;
    while i > from && chars[i - 1] != c
        invariant
            from <= i <= to <= chars@.len(),
            forall|j: int| i <= j < to ==> chars@[j] != c,
        decreases i,
    {
        i -= 1;
    }
    proof {
        lemma_after_last(s, c, i - from);
        assert(s.skip(i - from) =~= chars@.subrange(i as int, to as int));
    }
    i
}

/// The names in the first `to` characters of a path.
fn names_before(chars: &Vec<char>, to: usize) -> (r: Vec<Vec<char>>)
    requires
        to <= chars@.len(),
    ensures
        char_lists(r@) == path_names(chars@.subrange(0, to as int)),
    decreases to,
{
    let ghost path = chars@.subrange(0, to as int);
    let mut names: Vec<Vec<char>> = Vec::new();
    assert(char_lists(names@) =~= Seq::<Seq<char>>::empty());
    if to == 0 {
        return names;
    }
    let from: usize = last_part(chars, 0, to, '/');
    let name = slice_to_vec(slice_subrange(chars.as_slice(), from, to));
    let ghost last = name@;
    assert(last =~= after_last(path, '/'));
    if from == 0 {
        names.push(name);
        assert(char_lists(names@) =~= seq![path]);
        return names;
    }
    assert(path.take(path.len() - last.len() - 1) =~= chars@.subrange(0, from - 1));
    if from == 1 {
        let mut root: Vec<char> = Vec::new();
        root.push('/');
        assert(root@ =~= seq!['/']);
        names.push(root);
        assert(char_lists(names@) =~= seq![seq!['/']]);
    } else {
        names = names_before(chars, from - 1);
    }
    let ghost front = char_lists(names@);
    if name.len() == 0 || name.len() == 1 && name[0] == '.' {
        assert(last.len() == 1 ==> last =~= seq!['.']);
        return names;
    }
    assert(last != seq!['.']) by {
        assert(last.len() == 1 ==> last[0] != '.');
    }
    names.push(name);
    assert(char_lists(names@) =~= front.push(last));
    names
}

/// The characters of lists of characters.
pub open spec fn char_lists(s: Seq<Vec<char>>) -> Seq<Seq<char>> {
    Seq::new(s.len(), |i: int| s[i]@)
}

fn same_chars(a: &Vec<char>, b: &Vec<char>) -> (r: bool)
    ensures
        r == (a@ == b@),
{
    if a.len() != b.len() {
        return false;
    }
    let mut i: usize = 0;
    while i < a.len()
        invariant
            i <= a@.len() == b@.len(),
            forall|j: int| 0 <= j < i ==> a@[j] == b@[j],
        decreases a.len() - i,
    {
        if a[i] != b[i] {
            return false;
        }
        i += 1;
    }
    assert(a@ =~= b@);
    true
}

/// Whether what was found lies inside of the root: its path begins with all the names of the root.
pub fn lies_inside(root: &str, found: &str) -> (r: bool)
    ensures
        r == path_names(root@).is_prefix_of(path_names(found@)),
{
    let root_chars = chars_of(root);
    let found_chars = chars_of(found);
    assert(root_chars@.subrange(0, root_chars@.len() as int) =~= root@);
    assert(found_chars@.subrange(0, found_chars@.len() as int) =~= found@);
    let outer = names_before(&root_chars, root_chars.len());
    let inner = names_before(&found_chars, found_chars.len());
    let ghost a = char_lists(outer@);
    let ghost b = char_lists(inner@);
    if outer.len() > inner.len() {
        return false;
    }
    let mut i: usize = 0;
    while i < outer.len()
        invariant
            i <= outer@.len() <= inner@.len(),
            a == char_lists(outer@),
            b == char_lists(inner@),
            a == path_names(root@),
            b == path_names(found@),
            forall|j: int| 0 <= j < i ==> a[j] == b[j],
        decreases outer.len() - i,
    {
        if !same_chars(&outer[i], &inner[i]) {
            assert(a[i as int] != b.subrange(0, a.len() as int)[i as int]);
            return false;
        }
        i += 1;
    }
    assert(a =~= b.subrange(0, a.len() as int));
    true
}

/// The name of the file that is served for what was found, behind its path: a directory is served by
/// its index, a file by itself.
pub fn index_name(directory: bool) -> (r: Option<&'static str>)
    ensures
        match r {
            Some(name) => directory && name@ == "index.html"@,
            None => !directory,
        },
{
    if directory {
        Some("index.html")
    } else {
        None
    }
}

/// The extension of the last name in a path.
pub fn path_extension(path: &str) -> (r: String)
    ensures
        r@ == extension(path@),
{
    let chars = chars_of(path);
    let mut to: usize = chars.len();
    assert(chars@.subrange(0, to as int) =~= path@);
    let mut from: usize = last_part(&chars, 0, to, '/');
    while from > 0 && (to - from == 0 || to - from == 1 && chars[from] == '.')
        invariant
            from <= to <= chars@.len(),
            last_name(path@) == last_name(chars@.subrange(0, to as int)),
            after_last(chars@.subrange(0, to as int), '/') == chars@.subrange(
                from as int,
                to as int,
            ),
        decreases to,
    {
        let ghost s = chars@.subrange(0, to as int);
        let ghost name = chars@.subrange(from as int, to as int);
        proof {
            assert(to - from == 1 ==> name =~= seq!['.']);
            assert(s.take(s.len() - name.len() - 1) =~= chars@.subrange(0, from - 1));
        }
        to = from - 1;
        from = last_part(&chars, 0, to, '/');
    }
    let ghost s = chars@.subrange(0, to as int);
    let ghost name = chars@.subrange(from as int, to as int);
    proof {
        if name == seq!['.'] {
            assert(name[0] == '.');
        }
        assert(last_name(s) == name);
    }
    let dot: usize = last_part(&chars, from, to, '.');
    if dot > from + 1 {
        text_of(&chars, dot, to)
    } else {
        String::new()
    }
}

/// The type of the content of a file, by the extension of its name.
pub open spec fn content_type(extension: Seq<char>) -> Seq<char> {
    if extension == "html"@ {
        "text/html; charset=utf-8"@
    } else if extension == "js"@ {
        "application/javascript; charset=utf-8"@
    } else if extension == "css"@ {
        "text/css; charset=utf-8"@
    } else if extension == "json"@ {
        "application/json; charset=utf-8"@
    } else if extension == "png"@ {
        "image/png"@
    } else if extension == "jpg"@ || extension == "jpeg"@ {
        "image/jpeg"@
    } else if extension == "gif"@ {
        "image/gif"@
    } else if extension == "svg"@ {
        "image/svg+xml"@
    } else if extension == "webp"@ {
        "image/webp"@
    } else {
        "application/octet-stream"@
    }
}

/// The type of the content of the file at a path.
pub fn asset_content_type(path: &str) -> (r: &'static str)
    ensures
        r@ == content_type(extension(path@)),
{
    let extension = path_extension(path);
    let extension = extension.as_str();
    if same_text(extension, "html") {
        "text/html; charset=utf-8"
    } else if same_text(extension, "js") {
        "application/javascript; charset=utf-8"
    } else if same_text(extension, "css") {
        "text/css; charset=utf-8"
    } else if same_text(extension, "json") {
        "application/json; charset=utf-8"
    } else if same_text(extension, "png") {
        "image/png"
    } else if same_text(extension, "jpg") || same_text(extension, "jpeg") {
        "image/jpeg"
    } else if same_text(extension, "gif") {
        "image/gif"
    } else if same_text(extension, "svg") {
        "image/svg+xml"
    } else if same_text(extension, "webp") {
        "image/webp"
    } else {
        "application/octet-stream"
    }
}

/// The head of the answer with a file.
pub open spec fn file_head(extension: Seq<char>, size: nat) -> Seq<char> {
    "HTTP/1.1 200 OK\r\nContent-Type: "@ + content_type(extension) + "\r\nContent-Length: "@
        + numeral(size) + "\r\nConnection: close\r\n\r\n"@
}

/// What is logged of a file that is handed out.
pub open spec fn found_log(path: Seq<char>, size: nat) -> Seq<char> {
    "[INFO][AssetHost] GET "@ + path + " - 200 OK ("@ + numeral(size) + " bytes)"@
}

/// The head of the answer with the file at a path that has that many bytes, and the line that is
/// logged of it.
pub fn found_file(q: &FileRequest, file: &str, size: usize) -> (r: (String, String))
    ensures
        r.0@ == file_head(extension(file@), size as nat),
        r.1@ == found_log(q.path@, size as nat),
{
    let count = size_text(size);
    let head = cat5(
        "HTTP/1.1 200 OK\r\nContent-Type: ",
        asset_content_type(file),
        "\r\nContent-Length: ",
        count.as_str(),
        "\r\nConnection: close\r\n\r\n",
    );
    let log = cat5(
        "[INFO][AssetHost] GET ",
        q.path.as_str(),
        " - 200 OK (",
        count.as_str(),
        " bytes)",
    );
    (head, log)
}

/// An answer: its head, its body, and the line that is logged of it, if any is.
#[derive(Debug)]
pub struct Answer {
    pub head: String,
    pub body: Vec<u8>,
    pub log: Option<String>,
}

fn without_body(a: EmptyResponse) -> (r: Answer)
    ensures
        r.head == a.response,
        r.body@.len() == 0,
        r.log == a.log,
{
    Answer { head: a.response, body: Vec::new(), log: a.log }
}

/// Answers a request for a file, by whether the file at the path that it leads to lies inside of the
/// root, and by what that file holds, if it could be read.
pub fn answer_file(q: &FileRequest, inside: bool, file: &str, body: Option<Vec<u8>>) -> (r: Answer)
    ensures
        if !inside {
            &&& r.head@ == "HTTP/1.1 403 Forbidden\r\nContent-Length: 0\r\n\r\n"@
            &&& r.body@.len() == 0
            &&& r.log matches Some(l) && l@ == refusal_log(
                q.method@,
                q.path@,
                " - 403 Forbidden (path traversal)"@,
            )
        } else {
            match body {
                None => {
                    &&& r.head@ == "HTTP/1.1 404 Not Found\r\nContent-Length: 0\r\n\r\n"@
                    &&& r.body@.len() == 0
                    &&& r.log is None
                },
                Some(b) => {
                    &&& r.head@ == file_head(extension(file@), b@.len())
                    &&& r.body == b
                    &&& r.log matches Some(l) && l@ == found_log(q.path@, b@.len())
                },
            }
        },
{
    if !inside {
        return without_body(forbidden(q));
    }
    match body {
        None => without_body(not_found()),
        Some(body) => {
            let (head, log) = found_file(q, file, body.len());
            Answer { head, body, log: Some(log) }
        },
    }
}

/// Whether a text is made of ASCII characters other than carriage returns.
spec fn even(s: Seq<char>) -> bool {
    is_ascii_chars(s) && forall|i: int| 0 <= i < s.len() ==> #[trigger] s[i] != '\r'
}

proof fn lemma_numeral_even(n: nat)
    ensures
        even(numeral(n)),
    decreases n,
{
    if n >= 10 {
        lemma_numeral_even(n / 10);
    }
}

proof fn lemma_content_type_even(extension: Seq<char>)
    ensures
        even(content_type(extension)),
{
    reveal_strlit("text/html; charset=utf-8");
    reveal_strlit("application/javascript; charset=utf-8");
    reveal_strlit("text/css; charset=utf-8");
    reveal_strlit("application/json; charset=utf-8");
    reveal_strlit("image/png");
    reveal_strlit("image/jpeg");
    reveal_strlit("image/gif");
    reveal_strlit("image/svg+xml");
    reveal_strlit("image/webp");
    reveal_strlit("application/octet-stream");
}

/// The head of an answer is made of ASCII characters, and ends where its first blank line does.
proof fn lemma_file_head(extension: Seq<char>, size: nat)
    ensures
        ({
            let h = file_head(extension, size);
            &&& h.len() >= 4
            &&& h[h.len() - 4] == '\r' && h[h.len() - 3] == '\n' && h[h.len() - 2] == '\r' && h[h.len()
                - 1] == '\n'
            &&& is_ascii_chars(h)
            &&& forall|i: int|
                0 <= i < h.len() - 4 ==> #[trigger] h[i] != '\r' || h[i + 2] != '\r'
        }),
{
    let a = "HTTP/1.1 200 OK\r\nContent-Type: "@;
    let b = content_type(extension);
    let c = "\r\nContent-Length: "@;
    let d = numeral(size);
    let e = "\r\nConnection: close\r\n\r\n"@;
    reveal_strlit("HTTP/1.1 200 OK\r\nContent-Type: ");
    reveal_strlit("\r\nContent-Length: ");
    reveal_strlit("\r\nConnection: close\r\n\r\n");
    lemma_content_type_even(extension);
    lemma_numeral_even(size);
    let h = file_head(extension, size);
    let p = a.len() as int;
    let q = p + b.len();
    let r = q + c.len();
    let t = r + d.len();
    assert(h.len() == t + e.len());
    assert(e.len() == 23 && a.len() == 31 && c.len() == 18);
    assert forall|i: int| 0 <= i < h.len() implies '\0' <= #[trigger] h[i] <= '\u{7f}' by {
        if i < p {
            assert(h[i] == a[i]);
        } else if i < q {
            assert(h[i] == b[i - p]);
        } else if i < r {
            assert(h[i] == c[i - q]);
        } else if i < t {
            assert(h[i] == d[i - r]);
        } else {
            assert(h[i] == e[i - t]);
        }
    }
    assert forall|i: int| 0 <= i < h.len() - 4 implies #[trigger] h[i] != '\r' || h[i + 2]
        != '\r' by {
        if i < p {
            assert(h[i] == a[i]);
            if i + 2 < p {
                assert(h[i + 2] == a[i + 2]);
            }
        } else if i < q {
            assert(h[i] == b[i - p]);
        } else if i < r {
            assert(h[i] == c[i - q]);
            if i + 2 < r {
                assert(h[i + 2] == c[i + 2 - q]);
            }
        } else if i < t {
            assert(h[i] == d[i - r]);
        } else {
            assert(h[i] == e[i - t]);
            assert(h[i + 2] == e[i + 2 - t]);
        }
    }
}

/// Whoever takes the body out of an answer with a file gets that file.
pub proof fn lemma_file_found(extension: Seq<char>, size: nat, file: Seq<u8>, body: Seq<u8>)
    requires
        is_body(encode_utf8(file_head(extension, size)) + file, body),
    ensures
        body == file,
{
    let h = file_head(extension, size);
    lemma_file_head(extension, size);
    is_ascii_chars_encode_utf8(h);
    let s = encode_utf8(h) + file;
    let n = h.len() - 4;
    assert forall|i: int| 0 <= i < h.len() implies #[trigger] s[i] == h[i] as u8 by {}
    assert(s.subrange(n, n + 4) =~= head_end());
    assert(occurs_at(s, head_end(), n));
    assert forall|j: int| 0 <= j < n implies !#[trigger] occurs_at(s, head_end(), j) by {
        if occurs_at(s, head_end(), j) {
            let w = s.subrange(j, j + 4);
            assert(w[0] == s[j] && w[2] == s[j + 2]);
            assert(w == head_end());
            assert(h[j] as u8 == 13 && h[j + 2] as u8 == 13);
            assert(h[j] <= '\u{7f}' && h[j + 2] <= '\u{7f}');
        }
    }
    let i = choose|i: int| 0 <= i && #[trigger] ends_head(s, i) && body == s.skip(i + 4);
    assert(ends_head(s, i));
    assert(i == n);
    assert(s.skip(n + 4) =~= file);
}

/// Whoever reads a request for an asset finds the path that was asked for, if it holds no white
/// space.
pub proof fn lemma_request_read(path: Seq<char>)
    requires
        forall|i: int| 0 <= i < path.len() ==> !is_space(#[trigger] path[i]),
    ensures
        request_parts(request_text(path)) == ("GET"@, "/"@ + stripped(path, "/"@)),
{
    let a = "GET /"@;
    let p = stripped(path, "/"@);
    let b = " HTTP/1.1\r\nHost: asset-host\r\nConnection: close\r\n\r\n"@;
    reveal_strlit("GET /");
    reveal_strlit("GET");
    reveal_strlit("/");
    reveal_strlit(" HTTP/1.1\r\nHost: asset-host\r\nConnection: close\r\n\r\n");
    let s = request_text(path);
    let n = p.len() as int;
    assert("/"@.len() == 1 && a.len() == 5 && b.len() > 10);
    assert forall|i: int| 0 <= i < n implies !is_space(#[trigger] p[i]) by {
        if begins_with(path, "/"@) {
            assert(p[i] == path[i + 1]);
        } else {
            assert(p[i] == path[i]);
        }
    }
    assert forall|i: int| 0 <= i < n implies s[5 + i] == p[i] by {}
    let k = 5 + n + 10;
    assert(b[10] == '\n');
    assert(s[k] == b[10]);
    assert forall|j: int| 0 <= j < k implies s[j] != '\n' by {
        if j < 5 {
            assert(s[j] == a[j]);
        } else if j < 5 + n {
            assert(s[j] == p[j - 5]);
            assert(!is_space(p[j - 5]));
        } else {
            assert(s[j] == b[j - 5 - n]);
        }
    }
    lemma_first_line(s, k);
    let line = s.take(k);
    lemma_trimmed_start(line, 0);
    assert(line.skip(0) =~= line);
    assert(line[0] == a[0] && line[1] == a[1] && line[2] == a[2] && line[3] == a[3]);
    lemma_leading_word(line, 3);
    assert(line.take(3) =~= "GET"@);
    let rest = line.skip(3);
    assert(after_word(line) == rest);
    assert(rest[0] == a[3] && rest[1] == a[4]);
    lemma_trimmed_start(rest, 1);
    let word = rest.skip(1);
    assert(word[0] == a[4]);
    assert(word[n + 1] == s[5 + n]);
    assert(s[5 + n] == b[0]);
    assert forall|j: int| 0 <= j < n + 1 implies !is_space(#[trigger] word[j]) by {
        if j > 0 {
            assert(word[j] == s[4 + j]);
            assert(s[5 + (j - 1)] == p[j - 1]);
        }
    }
    lemma_leading_word(word, n + 1);
    assert(word.take(n + 1) =~= "/"@ + p) by {
        assert forall|j: int| 1 <= j < n + 1 implies word[j] == p[j - 1] by {
            assert(word[j] == s[5 + (j - 1)]);
        }
    }
}

/// The content type is that of the extension, and a stream of bytes for an extension that is not known.
pub proof fn lemma_content_types(e: Seq<char>)
    ensures
        content_type(e) == "text/html; charset=utf-8"@ <==> e == "html"@,
        content_type(e) == "application/javascript; charset=utf-8"@ <==> e == "js"@,
        content_type(e) == "text/css; charset=utf-8"@ <==> e == "css"@,
        content_type(e) == "application/json; charset=utf-8"@ <==> e == "json"@,
        content_type(e) == "image/png"@ <==> e == "png"@,
        content_type(e) == "image/jpeg"@ <==> e == "jpg"@ || e == "jpeg"@,
        content_type(e) == "image/gif"@ <==> e == "gif"@,
        content_type(e) == "image/svg+xml"@ <==> e == "svg"@,
        content_type(e) == "image/webp"@ <==> e == "webp"@,
        content_type(e) == "application/octet-stream"@ <==> e != "html"@ && e != "js"@ && e != "css"@ && e
            != "json"@ && e != "png"@ && e != "jpg"@ && e != "jpeg"@ && e != "gif"@ && e != "svg"@ && e
            != "webp"@,
{
    reveal_strlit("text/html; charset=utf-8");
    reveal_strlit("application/javascript; charset=utf-8");
    reveal_strlit("text/css; charset=utf-8");
    reveal_strlit("application/json; charset=utf-8");
    reveal_strlit("image/png");
    reveal_strlit("image/jpeg");
    reveal_strlit("image/gif");
    reveal_strlit("image/svg+xml");
    reveal_strlit("image/webp");
    reveal_strlit("application/octet-stream");
    assert("text/html; charset=utf-8"@.len() == 24);
    assert("application/javascript; charset=utf-8"@.len() == 37);
    assert("text/css; charset=utf-8"@.len() == 23);
    assert("application/json; charset=utf-8"@.len() == 31);
    assert("image/png"@.len() == 9 && "image/png"@[6] == 'p');
    assert("image/jpeg"@.len() == 10 && "image/jpeg"@[6] == 'j');
    assert("image/gif"@.len() == 9 && "image/gif"@[6] == 'g');
    assert("image/svg+xml"@.len() == 13);
    assert("image/webp"@.len() == 10 && "image/webp"@[6] == 'w');
    assert("application/octet-stream"@.len() == 24 && "application/octet-stream"@[0] == 'a');
    assert("text/html; charset=utf-8"@[0] == 't');
    reveal_strlit("html");
    reveal_strlit("js");
    reveal_strlit("css");
    reveal_strlit("json");
    reveal_strlit("png");
    reveal_strlit("jpg");
    reveal_strlit("jpeg");
    reveal_strlit("gif");
    reveal_strlit("svg");
    reveal_strlit("webp");
    assert("html"@[0] == 'h' && "js"@.len() == 2 && "css"@[0] == 'c' && "json"@[0] == 'j'
        && "json"@.len() == 4 && "png"@[0] == 'p' && "jpg"@[0] == 'j' && "jpg"@.len() == 3
        && "jpeg"@[0] == 'j' && "jpeg"@.len() == 4 && "jpeg"@[1] == 'p' && "json"@[1] == 's'
        && "gif"@[0] == 'g' && "svg"@[0] == 's' && "webp"@[0] == 'w');
}

/// The extension of a file is what follows the last dot in its name, in whatever directory it is.
pub proof fn lemma_extension_found(directory: Seq<char>, stem: Seq<char>, ending: Seq<char>)
    requires
        stem.len() > 0,
        !stem.contains('/'),
        !ending.contains('/'),
        !ending.contains('.'),
        stem + seq!['.'] + ending != seq!['.', '.'],
    ensures
        extension(directory + seq!['/'] + stem + seq!['.'] + ending) == ending,
        extension(stem + seq!['.'] + ending) == ending,
{
    let name = stem + seq!['.'] + ending;
    let path = directory + seq!['/'] + stem + seq!['.'] + ending;
    let d = directory.len() as int;
    let n = stem.len() as int;
    assert forall|j: int| 0 <= j < name.len() implies name[j] != '/' by {
        if j < n {
            assert(stem.contains(stem[j]));
        } else if j > n {
            assert(name[j] == ending[j - n - 1]);
            assert(ending.contains(ending[j - n - 1]));
        }
    }
    assert(path.skip(d + 1) =~= name);
    assert forall|j: int| d + 1 <= j < path.len() implies path[j] != '/' by {
        assert(path[j] == name[j - d - 1]);
    }
    lemma_after_last(path, '/', d + 1);
    lemma_after_last(name, '/', 0);
    assert(name.skip(0) =~= name);
    assert forall|j: int| n + 1 <= j < name.len() implies name[j] != '.' by {
        assert(name[j] == ending[j - n - 1]);
        assert(ending.contains(ending[j - n - 1]));
    }
    lemma_after_last(name, '.', n + 1);
    assert(name.skip(n + 1) =~= ending);
    assert(name.len() >= 2);
    assert(name != seq!['.']) by {
        assert(seq!['.'].len() == 1);
    }
    assert(last_name(path) == name);
    assert(last_name(name) == name);
}

/// A path below another has all its names and one more, so it lies inside of it; and two different names
/// in one directory do not lie inside of each other.
pub proof fn lemma_inside_below(root: Seq<char>, a: Seq<char>, b: Seq<char>)
    requires
        root.len() > 0,
        a.len() > 0,
        b.len() > 0,
        !a.contains('/'),
        !b.contains('/'),
        a != seq!['.'],
        b != seq!['.'],
    ensures
        path_names(root + seq!['/'] + a) == path_names(root).push(a),
        path_names(root).is_prefix_of(path_names(root + seq!['/'] + a)),
        a != b ==> !path_names(root + seq!['/'] + a).is_prefix_of(path_names(root + seq!['/'] + b)),
        !path_names(root + seq!['/'] + a).is_prefix_of(path_names(root)),
{
    lemma_name_added(root, a);
    lemma_name_added(root, b);
    let r = path_names(root);
    let x = path_names(root + seq!['/'] + a);
    let y = path_names(root + seq!['/'] + b);
    assert(x.subrange(0, r.len() as int) =~= r);
    if a != b {
        assert(y.subrange(0, x.len() as int) =~= y);
        assert(x[r.len() as int] == a && y[r.len() as int] == b);
    }
}

proof fn lemma_name_added(root: Seq<char>, a: Seq<char>)
    requires
        root.len() > 0,
        a.len() > 0,
        !a.contains('/'),
        a != seq!['.'],
    ensures
        path_names(root + seq!['/'] + a) == path_names(root).push(a),
{
    let path = root + seq!['/'] + a;
    let n = root.len() as int;
    assert forall|j: int| n + 1 <= j < path.len() implies path[j] != '/' by {
        assert(path[j] == a[j - n - 1]);
        assert(a.contains(a[j - n - 1]));
    }
    lemma_after_last(path, '/', n + 1);
    assert(path.skip(n + 1) =~= a);
    assert(path.take(path.len() - a.len() - 1) =~= root);
}

proof fn lemma_unrooted_cut(s: Seq<char>) -> (k: int)
    ensures
        0 <= k <= s.len(),
        unrooted(s) == s.skip(k),
        forall|j: int| 0 <= j < k ==> s[j] == '/',
        k < s.len() ==> s[k] != '/',
    decreases s.len(),
{
    if s.len() > 0 && s[0] == '/' {
        let k = lemma_unrooted_cut(s.drop_first());
        assert(s.drop_first().skip(k) =~= s.skip(k + 1));
        assert forall|j: int| 0 <= j < k + 1 implies s[j] == '/' by {
            if j > 0 {
                assert(s.drop_first()[j - 1] == s[j]);
            }
        }
        if k + 1 < s.len() {
            assert(s.drop_first()[k] == s[k + 1]);
        }
        k + 1
    } else {
        assert(s.skip(0) =~= s);
        0
    }
}

/// The file that a path asks for is the path without the slashes before it, and the index if there is
/// nothing else.
pub proof fn lemma_file_asked_for(path: Seq<char>)
    ensures
        (forall|i: int| 0 <= i < path.len() ==> path[i] == '/') ==> file_path(path) == "index.html"@,
        (exists|i: int| 0 <= i < path.len() && path[i] != '/') ==> file_path(path).len() > 0 && file_path(
            path,
        )[0] != '/' && file_path(path).len() <= path.len() && path.skip(
            path.len() - file_path(path).len(),
        ) == file_path(path) && forall|i: int|
            0 <= i < path.len() - file_path(path).len() ==> path[i] == '/',
{
    let k = lemma_unrooted_cut(path);
    if exists|i: int| 0 <= i < path.len() && path[i] != '/' {
        let i = choose|i: int| 0 <= i < path.len() && path[i] != '/';
        assert(k <= i);
        assert(file_path(path)[0] == path[k]);
    }
}

/// The head of an answer with a file begins with the line that says that all is well, has the type
/// that belongs to the extension and, as a number that reads as the size, the length, and ends with an
/// empty line. What is logged names the path and has the size too. The result is where the lengths are.
pub proof fn lemma_head_tells(e: Seq<char>, path: Seq<char>, size: nat) -> (at: (int, int, int))
    ensures
        begins_with(file_head(e, size), "HTTP/1.1 200 OK\r\nContent-Type: "@ + content_type(e) + "\r\n"@),
        occurs_at(file_head(e, size), "\r\nContent-Length: "@, at.0),
        0 <= at.0 + "\r\nContent-Length: "@.len() <= at.1 <= file_head(e, size).len(),
        digits_value(
            file_head(e, size).subrange(at.0 + "\r\nContent-Length: "@.len(), at.1),
        ) == Some(size),
        file_head(e, size).skip(at.1) == "\r\nConnection: close\r\n\r\n"@,
        begins_with(found_log(path, size), "[INFO][AssetHost] GET "@ + path + " - 200 OK ("@),
        0 <= ("[INFO][AssetHost] GET "@ + path + " - 200 OK ("@).len() <= at.2 <= found_log(path, size).len(),
        digits_value(
            found_log(path, size).subrange(
                ("[INFO][AssetHost] GET "@ + path + " - 200 OK ("@).len() as int,
                at.2,
            ),
        ) == Some(size),
        found_log(path, size).skip(at.2) == " bytes)"@,
{
    let top = "HTTP/1.1 200 OK\r\nContent-Type: "@ + content_type(e);
    let mark = "\r\nContent-Length: "@;
    let head = file_head(e, size);
    let n = numeral(size);
    lemma_numeral_read(size);
    reveal_strlit("\r\nContent-Length: ");
    reveal_strlit("\r\n");
    assert((top + "\r\n"@).len() <= (top + mark).len());
    assert(head.subrange(0, (top + "\r\n"@).len() as int) =~= top + "\r\n"@);
    let a = top.len() as int;
    let b = a + mark.len();
    assert(head.subrange(a, b) =~= mark);
    let c = b + n.len();
    assert(head.subrange(b, c) =~= n);
    assert(head.skip(c) =~= "\r\nConnection: close\r\n\r\n"@);
    let front = "[INFO][AssetHost] GET "@ + path + " - 200 OK ("@;
    let line = found_log(path, size);
    assert(line.subrange(0, front.len() as int) =~= front);
    let d = 0int + front.len() + n.len();
    assert(line.subrange(front.len() as int, d) =~= n);
    assert(line.skip(d) =~= " bytes)"@);
    (a, c, d)
}

/// What is logged of a request that is refused begins with the mark of a warning and has the method,
/// the path and the reason, in this order.
pub proof fn lemma_refusal_told(method: Seq<char>, path: Seq<char>, why: Seq<char>)
    ensures
        begins_with(refusal_log(method, path, why), "[WARN][AssetHost] "@ + method + " "@ + path),
        refusal_log(method, path, why).skip(("[WARN][AssetHost] "@ + method + " "@ + path).len() as int)
            == why,
{
    let head = "[WARN][AssetHost] "@ + method + " "@ + path;
    assert((head + why).subrange(0, head.len() as int) =~= head);
    assert((head + why).skip(head.len() as int) =~= why);
}

/// What follows the first empty line of a response is its body; where there is no empty line, all of it
/// is.
pub proof fn lemma_body_found(response: Seq<u8>, body: Seq<u8>, gap: Seq<u8>, i: int)
    requires
        gap == seq![13u8, 10u8, 13u8, 10u8],
    ensures
        occurs_at(response, gap, i) && (forall|j: int|
            0 <= j < i ==> !#[trigger] occurs_at(response, gap, j)) ==> (is_body(
            response,
            body,
        ) <==> body == response.skip(i + 4)),
        (forall|j: int| 0 <= j ==> !#[trigger] occurs_at(response, gap, j)) ==> (
        is_body(response, body) <==> body == response),
{
    assert(head_end() =~= gap);
    if occurs_at(response, head_end(), i) && (forall|j: int|
        0 <= j < i ==> !#[trigger] occurs_at(response, head_end(), j)) {
        assert(ends_head(response, i));
        assert forall|k: int| 0 <= k && #[trigger] ends_head(response, k) implies k == i by {
            if k < i {
                assert(occurs_at(response, head_end(), k));
            }
        }
    }
}

/// A file whose name has no dot, or only one at its start, has no extension.
pub proof fn lemma_no_extension(name: Seq<char>)
    requires
        name.len() > 0,
        !name.contains('/'),
        !name.contains('.'),
    ensures
        extension(name) == Seq::<char>::empty(),
        extension(seq!['.'] + name) == Seq::<char>::empty(),
{
    assert forall|j: int| 0 <= j < name.len() implies name[j] != '/' && name[j] != '.' by {
        assert(name.contains(name[j]));
    }
    lemma_after_last(name, '/', 0);
    lemma_after_last(name, '.', 0);
    assert(name.skip(0) =~= name);
    let dotted = seq!['.'] + name;
    lemma_after_last(dotted, '/', 0);
    assert(dotted.skip(0) =~= dotted);
    lemma_after_last(dotted, '.', 1);
    assert(dotted.skip(1) =~= name);
    assert(last_name(name) == name);
    assert(last_name(dotted) == dotted);
}

/// A request line has the method first and the path second, and a line of one word asks for the root.
pub proof fn lemma_line_read(method: Seq<char>, path: Seq<char>, rest: Seq<char>)
    requires
        method.len() > 0,
        path.len() > 0,
        forall|i: int| 0 <= i < method.len() ==> !is_space(#[trigger] method[i]),
        forall|i: int| 0 <= i < path.len() ==> !is_space(#[trigger] path[i]),
        forall|i: int| 0 <= i < rest.len() ==> #[trigger] rest[i] != '\n',
        rest.len() > 0 ==> is_space(rest[0]),
    ensures
        request_parts(method + seq![' '] + path + rest) == (method, path),
        request_parts(method) == (method, "/"@),
{
    let line = method + seq![' '] + path + rest;
    let n = method.len() as int;
    assert(is_space(' '));
    assert(is_space('\n'));
    assert forall|j: int| 0 <= j < line.len() implies line[j] != '\n' by {
        if j < n {
            assert(!is_space(method[j]));
        } else if j > n && j <= n + path.len() {
            assert(line[j] == path[j - n - 1]);
            assert(!is_space(path[j - n - 1]));
        } else if j > n {
            assert(line[j] == rest[j - n - 1 - path.len()]);
        }
    }
    lemma_first_line(line, line.len() as int);
    assert(line.take(line.len() as int) =~= line);
    assert(line[0] == method[0]);
    lemma_leading_word(line, n);
    assert(line.take(n) =~= method);
    let after = line.skip(n);
    assert(after[0] == ' ');
    let second = after.drop_first();
    assert(second =~= path + rest);
    assert(trimmed_start(line) == line);
    assert(trimmed_start(after) == trimmed_start(second));
    assert(second[0] == path[0]);
    assert(trimmed_start(second) == second);
    lemma_leading_word(second, path.len() as int);
    assert(second.take(path.len() as int) =~= path);
    assert forall|j: int| 0 <= j < method.len() implies method[j] != '\n' by {
        assert(!is_space(method[j]));
    }
    lemma_first_line(method, n);
    assert(method.take(n) =~= method);
    assert(trimmed_start(method) == method);
    lemma_leading_word(method, n);
    assert(method.skip(n) =~= Seq::empty());
    assert(trimmed_start(Seq::<char>::empty()) =~= Seq::empty());
    assert(leading_word(Seq::<char>::empty()) =~= Seq::empty());
}

} // verus!

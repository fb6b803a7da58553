//! The manifest of an application, `manifold.toml`, and the name that it gives the application.

use crate::error::{invalid, CliError};
use crate::record::fresh_id;
use crate::record::{random_uuid, uuid_text};
use crate::strmap::lookup;
use crate::text::{cat, chars_of, text_of};
use toml::Value as Toml;
use vstd::prelude::*;

verus! {

/// A TOML value of the `toml` crate.
#[verifier::external_type_specification]
#[verifier::external_body]
pub struct ExTomlValue(Toml);

/// A TOML document. What is neither a text nor a table makes no difference here.
pub enum TomlTree {
    Text(Seq<char>),
    Table(Seq<(Seq<char>, TomlTree)>),
    Other,
}

/// The document that a TOML value holds.
pub uninterp spec fn toml_tree(v: Toml) -> TomlTree;

/// What comes of reading TOML text: a document, or a message that says what is wrong.
pub enum TomlParsed {
    Document(TomlTree),
    Fault(Seq<char>),
}

/// What comes of reading a text as TOML.
pub uninterp spec fn toml_parse(text: Seq<char>) -> TomlParsed;

/// What a table holds under a key. Anything but a table holds nothing.
pub open spec fn member(t: TomlTree, key: Seq<char>) -> Option<TomlTree> {
    match t {
        TomlTree::Table(s) => lookup(s, key),
        _ => None,
    }
}

/// The text of a document that is one.
pub open spec fn text_in(t: TomlTree) -> Option<Seq<char>> {
    match t {
        TomlTree::Text(s) => Some(s),
        _ => None,
    }
}

/// `toml::from_str` into a `toml::Value`: the document, or the parser's message.
#[verifier::external_body]
fn toml_read(text: &str) -> (r: Result<Toml, String>)
    ensures
        match r {
            Ok(v) => toml_parse(text@) == TomlParsed::Document(toml_tree(v)),
            Err(e) => toml_parse(text@) == TomlParsed::Fault(e@),
        },
{
    toml::from_str(text).map_err(|e: toml::de::Error| e.to_string())
}

/// `toml::Value::get` with a text: what a table holds under a key, and nothing for any other value.
#[verifier::external_body]
fn toml_get<'a>(v: &'a Toml, key: &str) -> (r: Option<&'a Toml>)
    ensures
        match r {
            Some(m) => member(toml_tree(*v), key@) == Some(toml_tree(*m)),
            None => member(toml_tree(*v), key@) is None,
        },
{
    v.get(key)
}

/// `toml::Value::as_str`: the text of a value that is one.
#[verifier::external_body]
fn toml_str<'a>(v: &'a Toml) -> (r: Option<&'a str>)
    ensures
        match r {
            Some(s) => text_in(toml_tree(*v)) == Some(s@),
            None => text_in(toml_tree(*v)) is None,
        },
{
    v.as_str()
}

/// The text under a key.
pub open spec fn text_under(t: TomlTree, key: Seq<char>) -> Option<Seq<char>> {
    match member(t, key) {
        Some(m) => text_in(m),
        None => None,
    }
}

/// The text under a key of a section, or else the one under a key of the document itself.
pub open spec fn declared(
    t: TomlTree,
    section: Seq<char>,
    inner: Seq<char>,
    outer: Seq<char>,
) -> Option<Seq<char>> {
    match member(t, section) {
        Some(m) => match text_under(m, inner) {
            Some(s) => Some(s),
            None => text_under(t, outer),
        },
        None => text_under(t, outer),
    }
}

fn find_text<'a>(v: &'a Toml, key: &str) -> (r: Option<&'a str>)
    ensures
        match r {
            Some(s) => text_under(toml_tree(*v), key@) == Some(s@),
            None => text_under(toml_tree(*v), key@) is None,
        },
{
    match toml_get(v, key) {
        Some(m) => toml_str(m),
        None => None,
    }
}

fn find_declared<'a>(v: &'a Toml, section: &str, inner: &str, outer: &str) -> (r: Option<&'a str>)
    ensures
        match r {
            Some(s) => declared(toml_tree(*v), section@, inner@, outer@) == Some(s@),
            None => declared(toml_tree(*v), section@, inner@, outer@) is None,
        },
{
    match toml_get(v, section) {
        Some(m) => match find_text(m, inner) {
            Some(s) => Some(s),
            None => find_text(v, outer),
        },
        None => find_text(v, outer),
    }
}

/// Where the parts of an application are.
#[derive(Debug)]
pub struct ManifestLayout {
    pub frontend_assets_dir: String,
    pub backend_wasm_path: String,
}

/// Why a manifest does not say where the parts of an application are.
#[derive(Debug)]
pub enum ManifestError {
    Parse(String),
    MissingFrontend,
    MissingBackend,
}

impl ManifestError {
    /// The line that is logged.
    pub fn line(&self) -> (r: String)
        ensures
            r@ == match self {
                ManifestError::Parse(e) => "[ERROR][Validator] failed to parse manifold.toml: "@
                    + e@,
                ManifestError::MissingFrontend =>
                    "[ERROR][Validator] Missing required manifest field `frontend.assets_dir` or `assets_dir`."@,
                ManifestError::MissingBackend =>
                    "[ERROR][Validator] Missing required manifest field `backend.wasm_path` or `wasm`."@,
            },
    {
        match self {
            ManifestError::Parse(e) => cat(
                "[ERROR][Validator] failed to parse manifold.toml: ",
                e.as_str(),
            ),
            ManifestError::MissingFrontend =>
                "[ERROR][Validator] Missing required manifest field `frontend.assets_dir` or `assets_dir`.".to_owned(),
            ManifestError::MissingBackend =>
                "[ERROR][Validator] Missing required manifest field `backend.wasm_path` or `wasm`.".to_owned(),
        }
    }

    /// The error that the command ends with.
    pub fn error(&self) -> (r: CliError)
        ensures
            r matches CliError::Validation(s) && s@ == match self {
                ManifestError::Parse(_) => "manifest parse failed"@,
                ManifestError::MissingFrontend => "frontend assets declaration missing"@,
                ManifestError::MissingBackend => "backend wasm declaration missing"@,
            },
    {
        match self {
            ManifestError::Parse(_) => invalid("manifest parse failed"),
            ManifestError::MissingFrontend => invalid("frontend assets declaration missing"),
            ManifestError::MissingBackend => invalid("backend wasm declaration missing"),
        }
    }
}

/// The directory of assets that a manifest declares.
pub open spec fn assets_dir(t: TomlTree) -> Option<Seq<char>> {
    declared(t, "frontend"@, "assets_dir"@, "assets_dir"@)
}

/// The module that a manifest declares.
pub open spec fn wasm_path(t: TomlTree) -> Option<Seq<char>> {
    declared(t, "backend"@, "wasm_path"@, "wasm"@)
}

/// Reads where the parts of an application are.
pub fn layout_of(parsed: &Toml) -> (r: Result<ManifestLayout, ManifestError>)
    ensures
        match r {
            Ok(l) => assets_dir(toml_tree(*parsed)) == Some(l.frontend_assets_dir@) && wasm_path(
                toml_tree(*parsed),
            ) == Some(l.backend_wasm_path@),
            Err(ManifestError::MissingFrontend) => assets_dir(toml_tree(*parsed)) is None,
            Err(ManifestError::MissingBackend) => assets_dir(toml_tree(*parsed)) is Some
                && wasm_path(toml_tree(*parsed)) is None,
            Err(ManifestError::Parse(_)) => false,
        },
{
    let assets = match find_declared(parsed, "frontend", "assets_dir", "assets_dir") {
        Some(s) => s,
        None => {
            return Err(ManifestError::MissingFrontend);
        },
    };
    let wasm = match find_declared(parsed, "backend", "wasm_path", "wasm") {
        Some(s) => s,
        None => {
            return Err(ManifestError::MissingBackend);
        },
    };
    Ok(
        ManifestLayout {
            frontend_assets_dir: assets.to_owned(),
            backend_wasm_path: wasm.to_owned(),
        },
    )
}

/// Reads where the parts of an application are from the text of its manifest.
pub fn validate_manifest_architecture(source: &str) -> (r: Result<ManifestLayout, ManifestError>)
    ensures
        match toml_parse(source@) {
            TomlParsed::Fault(e) => r matches Err(ManifestError::Parse(s)) && s@ == e,
            TomlParsed::Document(t) => match r {
                Ok(l) => assets_dir(t) == Some(l.frontend_assets_dir@) && wasm_path(t) == Some(
                    l.backend_wasm_path@,
                ),
                Err(ManifestError::MissingFrontend) => assets_dir(t) is None,
                Err(ManifestError::MissingBackend) => assets_dir(t) is Some && wasm_path(t) is None,
                Err(ManifestError::Parse(_)) => false,
            },
        },
{
    match toml_read(source) {
        Ok(parsed) => layout_of(&parsed),
        Err(e) => Err(ManifestError::Parse(e)),
    }
}

/// The characters that the name of an application may hold before it is made lower case.
pub open spec fn name_char(c: char) -> bool {
    'a' <= c <= 'z' || 'A' <= c <= 'Z' || '0' <= c <= '9' || c == '-' || c == '_'
}

/// A text with an underscore for each character that a name may not hold.
pub open spec fn masked(s: Seq<char>) -> Seq<char> {
    Seq::new(
        s.len(),
        |i: int|
            if name_char(s[i]) {
                s[i]
            } else {
                '_'
            },
    )
}

/// The characters that a name neither begins nor ends with.
pub open spec fn joint(c: char) -> bool {
    c == '_' || c == '-'
}

/// A text without the joints that it begins with.
pub open spec fn front_cut(s: Seq<char>) -> Seq<char>
    decreases s.len(),
{
    if s.len() > 0 && joint(s[0]) {
        front_cut(s.drop_first())
    } else {
        s
    }
}

/// A text without the joints that it ends with.
pub open spec fn back_cut(s: Seq<char>) -> Seq<char>
    decreases s.len(),
{
    if s.len() > 0 && joint(s.last()) {
        back_cut(s.drop_last())
    } else {
        s
    }
}

/// The lower case of an ASCII character.
pub open spec fn lower(c: char) -> char {
    if 'A' <= c <= 'Z' {
        (c as u32 + 32) as char
    } else {
        c
    }
}

/// The lower case of an ASCII text.
pub open spec fn lowered(s: Seq<char>) -> Seq<char> {
    Seq::new(s.len(), |i: int| lower(s[i]))
}

/// What is left of a text as the name of an application.
pub open spec fn cleaned(raw: Seq<char>) -> Seq<char> {
    lowered(back_cut(front_cut(masked(raw))))
}

/// The name of an application: what is left of `raw`, or `fresh` if nothing is.
pub open spec fn cleaned_or(raw: Seq<char>, fresh: Seq<char>) -> Seq<char> {
    if cleaned(raw).len() == 0 {
        fresh
    } else {
        cleaned(raw)
    }
}

fn mask(c: char) -> (r: char)
    ensures
        r == if name_char(c) {
            c
        } else {
            '_'
        },
{
    if ('a' <= c && c <= 'z') || ('A' <= c && c <= 'Z') || ('0' <= c && c <= '9') || c == '-' || c
        == '_' {
        c
    } else {
        '_'
    }
}

fn to_lower(c: char) -> (r: char)
    ensures
        r == lower(c),
{
    if 'A' <= c && c <= 'Z' {
        let code: u8 = (c as u32 + 32) as u8;
        code as char
    } else {
        c
    }
}

/// The name of an application: what is left of `raw`, or `fresh` if nothing is.
pub fn sanitize_or(raw: &str, fresh: &str) -> (r: String)
    ensures
        r@ == cleaned_or(raw@, fresh@),
{
    let chars = chars_of(raw);
    let mut name: Vec<char> = Vec::new();
    let mut i: usize = 0;
    while i < chars.len()
        invariant
            i <= chars@.len(),
            chars@ == raw@,
            name@ == masked(raw@).take(i as int),
        decreases chars.len() - i,
    {
        name.push(mask(chars[i]));
        assert(masked(raw@).take(i + 1) =~= masked(raw@).take(i as int).push(masked(raw@)[i as int]));
        i += 1;
    }
    assert(name@ =~= masked(raw@));
    let ghost whole = masked(raw@);
    let mut from: usize = 0;
    assert(whole.skip(0) =~= whole);
    while from < name.len() && (name[from] == '_' || name[from] == '-')
        invariant
            from <= name@.len(),
            name@ == whole,
            front_cut(whole) == front_cut(whole.skip(from as int)),
        decreases name.len() - from,
    {
        assert(whole.skip(from as int).drop_first() =~= whole.skip(from + 1));
        from += 1;
    }
    let ghost mid = whole.skip(from as int);
    assert(front_cut(whole) == mid);
    let mut to: usize = name.len();
    assert(whole.subrange(from as int, to as int) =~= mid);
    while from < to && (name[to - 1] == '_' || name[to - 1] == '-')
        invariant
            from <= to <= name@.len(),
            name@ == whole,
            back_cut(mid) == back_cut(whole.subrange(from as int, to as int)),
        decreases to,
    {
        assert(whole.subrange(from as int, to as int).drop_last() =~= whole.subrange(
            from as int,
            to - 1,
        ));
        to -= 1;
    }
    let ghost core = whole.subrange(from as int, to as int);
    assert(back_cut(mid) == core);
    if from == to {
        return fresh.to_owned();
    }
    let mut small: Vec<char> = Vec::new();
    let mut k: usize = from;
    while k < to
        invariant
            from <= k <= to <= name@.len(),
            name@ == whole,
            core == whole.subrange(from as int, to as int),
            small@ == lowered(core).take(k - from),
        decreases to - k,
    {
        small.push(to_lower(name[k]));
        assert(lowered(core).take(k - from + 1) =~= lowered(core).take(k - from).push(
            lowered(core)[k - from],
        ));
        k += 1;
    }
    let n: usize = small.len();
    let r = text_of(&small, 0, n);
    assert(r@ =~= lowered(core));
    r
}

/// The name of an application: what is left of `raw`, or a new UUID if nothing is.
pub fn sanitize_app_id(raw: &str) -> (r: String)
    ensures
        cleaned(raw@).len() > 0 ==> r@ == cleaned(raw@),
        cleaned(raw@).len() == 0 ==> exists|n: u128| #[trigger] random_uuid(n) && r@ == uuid_text(n),
{
    let fresh = fresh_id();
    sanitize_or(raw, fresh.as_str())
}

/// The name that a manifest declares.
pub open spec fn declared_name(t: TomlTree) -> Option<Seq<char>> {
    declared(t, "app"@, "id"@, "app_id"@)
}

/// The name of an application by its manifest, if it has one, and the name of its directory, if
/// that has one.
pub open spec fn app_name(
    manifest: Option<TomlTree>,
    dir_name: Option<Seq<char>>,
    fresh: Seq<char>,
) -> Seq<char> {
    match manifest {
        Some(t) => match declared_name(t) {
            Some(id) => cleaned_or(id, fresh),
            None => dir_app_name(dir_name, fresh),
        },
        None => dir_app_name(dir_name, fresh),
    }
}

/// The name of an application by the name of its directory, if that has one.
pub open spec fn dir_app_name(dir_name: Option<Seq<char>>, fresh: Seq<char>) -> Seq<char> {
    match dir_name {
        Some(d) => cleaned_or(d, fresh),
        None => cleaned_or(fresh, fresh),
    }
}

fn dir_app_id(dir_name: Option<&str>, fresh: &str) -> (r: String)
    ensures
        r@ == dir_app_name(
            match dir_name {
                Some(d) => Some(d@),
                None => None,
            },
            fresh@,
        ),
{
    match dir_name {
        Some(d) => sanitize_or(d, fresh),
        None => sanitize_or(fresh, fresh),
    }
}

/// The name of an application, given the UUID to name it by where nothing else does.
pub fn app_id_or(manifest: Option<&str>, dir_name: Option<&str>, fresh: &str) -> (r: Result<
    String,
    CliError,
>)
    ensures
        ({
            let dir = match dir_name {
                Some(d) => Some(d@),
                None => None,
            };
            match manifest {
                None => r matches Ok(s) && s@ == app_name(None, dir, fresh@),
                Some(source) => match toml_parse(source@) {
                    TomlParsed::Document(t) => r matches Ok(s) && s@ == app_name(
                        Some(t),
                        dir,
                        fresh@,
                    ),
                    TomlParsed::Fault(e) => r matches Err(CliError::Validation(s)) && s@
                        == "failed to parse manifold.toml: "@ + e,
                },
            }
        }),
{
    match manifest {
        None => Ok(dir_app_id(dir_name, fresh)),
        Some(source) => match toml_read(source) {
            Ok(parsed) => match find_declared(&parsed, "app", "id", "app_id") {
                Some(id) => Ok(sanitize_or(id, fresh)),
                None => Ok(dir_app_id(dir_name, fresh)),
            },
            Err(e) => Err(
                CliError::Validation(cat("failed to parse manifold.toml: ", e.as_str())),
            ),
        },
    }
}

/// The name of an application by its manifest, if it has one, or else by the name of its directory.
pub fn determine_app_id(manifest: Option<&str>, dir_name: Option<&str>) -> (r: Result<
    String,
    CliError,
>)
    ensures
        ({
            let dir = match dir_name {
                Some(d) => Some(d@),
                None => None,
            };
            match manifest {
                None => r matches Ok(s) && named(s@, None, dir),
                Some(source) => match toml_parse(source@) {
                    TomlParsed::Document(t) => r matches Ok(s) && named(s@, Some(t), dir),
                    TomlParsed::Fault(e) => r matches Err(CliError::Validation(s)) && s@
                        == "failed to parse manifold.toml: "@ + e,
                },
            }
        }),
{
    let fresh = fresh_id();
    app_id_or(manifest, dir_name, fresh.as_str())
}

/// Whether an application may have that name, whichever UUID was drawn.
pub open spec fn named(
    name: Seq<char>,
    manifest: Option<TomlTree>,
    dir_name: Option<Seq<char>>,
) -> bool {
    exists|n: u128| #[trigger] random_uuid(n) && name == app_name(manifest, dir_name, uuid_text(n))
}

/// The characters of a clean name.
pub open spec fn clean_char(c: char) -> bool {
    'a' <= c <= 'z' || '0' <= c <= '9' || c == '-' || c == '_'
}

proof fn lemma_cuts(s: Seq<char>)
    ensures
        ({
            let t = back_cut(front_cut(s));
            &&& forall|i: int| 0 <= i < t.len() ==> s.contains(#[trigger] t[i])
            &&& t.len() > 0 ==> !joint(t[0]) && !joint(t.last())
        }),
{
    lemma_front_cut(s);
    let f = front_cut(s);
    lemma_back_cut(f);
    let t = back_cut(f);
    assert forall|i: int| 0 <= i < t.len() implies s.contains(#[trigger] t[i]) by {
        assert(t[i] == f[i]);
        assert(s.contains(f[i]));
    }
}

proof fn lemma_front_cut(s: Seq<char>)
    ensures
        forall|i: int| 0 <= i < front_cut(s).len() ==> s.contains(#[trigger] front_cut(s)[i]),
        front_cut(s).len() > 0 ==> !joint(front_cut(s)[0]),
    decreases s.len(),
{
    if s.len() > 0 && joint(s[0]) {
        let t = s.drop_first();
        lemma_front_cut(t);
        assert forall|i: int| 0 <= i < front_cut(s).len() implies s.contains(
            #[trigger] front_cut(s)[i],
        ) by {
            assert(t.contains(front_cut(t)[i]));
            let j = choose|j: int| 0 <= j < t.len() && t[j] == front_cut(t)[i];
            assert(s[j + 1] == t[j]);
        }
    }
}

proof fn lemma_back_cut(s: Seq<char>)
    ensures
        back_cut(s).len() <= s.len(),
        forall|i: int| 0 <= i < back_cut(s).len() ==> #[trigger] back_cut(s)[i] == s[i],
        back_cut(s).len() > 0 ==> !joint(back_cut(s).last()),
    decreases s.len(),
{
    if s.len() > 0 && joint(s.last()) {
        lemma_back_cut(s.drop_last());
    }
}

/// What is left of any text holds only lower case letters, digits, hyphens and underscores, and
/// neither begins nor ends with a hyphen or an underscore. So it holds no colon.
pub proof fn lemma_cleaned(raw: Seq<char>)
    ensures
        forall|i: int| 0 <= i < cleaned(raw).len() ==> clean_char(#[trigger] cleaned(raw)[i]),
        cleaned(raw).len() > 0 ==> !joint(cleaned(raw)[0]) && !joint(cleaned(raw).last()),
        !cleaned(raw).contains(':'),
{
    let m = masked(raw);
    let t = back_cut(front_cut(m));
    lemma_cuts(m);
    assert forall|i: int| 0 <= i < t.len() implies name_char(#[trigger] t[i]) && clean_char(
        lower(t[i]),
    ) && (joint(lower(t[i])) ==> joint(t[i])) by {
        assert(m.contains(t[i]));
        let j = choose|j: int| 0 <= j < m.len() && m[j] == t[i];
        assert(name_char(m[j]));
        lemma_lower(t[i]);
    }
}

proof fn lemma_lower(c: char)
    requires
        name_char(c),
    ensures
        clean_char(lower(c)),
        joint(lower(c)) ==> joint(c),
{
    if 'A' <= c <= 'Z' {
        let n = c as u32;
        assert(65 <= n <= 90);
        assert(((n + 32) as char) as u32 == n + 32);
    }
}

/// A clean name is left as it is.
pub proof fn lemma_cleaned_twice(raw: Seq<char>)
    ensures
        cleaned(cleaned(raw)) == cleaned(raw),
{
    let c = cleaned(raw);
    lemma_cleaned(raw);
    assert(masked(c) =~= c);
    assert(front_cut(c) == c);
    assert(back_cut(c) == c);
    assert(lowered(c) =~= c) by {
        assert forall|i: int| 0 <= i < c.len() implies lower(c[i]) == c[i] by {
            assert(clean_char(c[i]));
        }
    }
}

proof fn lemma_uuid_text(n: u128)
    ensures
        !uuid_text(n).contains(':'),
{
    assert forall|i: int| 0 <= i < uuid_text(n).len() implies uuid_text(n)[i] != ':' by {}
}

/// No application has a name with a colon, so that the scopes of applications with different names
/// are apart.
pub proof fn lemma_named(name: Seq<char>, manifest: Option<TomlTree>, dir_name: Option<Seq<char>>)
    requires
        named(name, manifest, dir_name),
    ensures
        !name.contains(':'),
{
    let n = choose|n: u128|
        #[trigger] random_uuid(n) && name == app_name(manifest, dir_name, uuid_text(n));
    let fresh = uuid_text(n);
    lemma_uuid_text(n);
    lemma_cleaned(fresh);
    match dir_name {
        Some(d) => lemma_cleaned(d),
        None => {},
    }
    match manifest {
        Some(t) => match declared_name(t) {
            Some(id) => lemma_cleaned(id),
            None => {},
        },
        None => {},
    }
}

proof fn lemma_front_cut_at(s: Seq<char>) -> (k: int)
    ensures
        0 <= k <= s.len(),
        front_cut(s) == s.skip(k),
        forall|j: int| 0 <= j < k ==> joint(#[trigger] s[j]),
    decreases s.len(),
{
    if s.len() > 0 && joint(s[0]) {
        let k = lemma_front_cut_at(s.drop_first());
        assert(s.drop_first().skip(k) =~= s.skip(k + 1));
        assert forall|j: int| 0 <= j < k + 1 implies joint(#[trigger] s[j]) by {
            if j > 0 {
                assert(s.drop_first()[j - 1] == s[j]);
            }
        }
        k + 1
    } else {
        assert(s.skip(0) =~= s);
        0
    }
}

proof fn lemma_back_cut_at(s: Seq<char>) -> (k: int)
    ensures
        0 <= k <= s.len(),
        back_cut(s) == s.take(k),
        forall|j: int| k <= j < s.len() ==> joint(#[trigger] s[j]),
    decreases s.len(),
{
    if s.len() > 0 && joint(s.last()) {
        let k = lemma_back_cut_at(s.drop_last());
        assert(s.drop_last().take(k) =~= s.take(k));
        assert forall|j: int| k <= j < s.len() implies joint(#[trigger] s[j]) by {
            if j < s.len() - 1 {
                assert(s.drop_last()[j] == s[j]);
            }
        }
        k
    } else {
        assert(s.take(s.len() as int) =~= s);
        s.len() as int
    }
}

/// Cleaning keeps what can stand in a name: every letter, in lower case, and every digit stays at its
/// place, what cannot stand in a name becomes an underscore, and nothing is cut off but such
/// underscores and hyphens at the ends. The result is where the name begins.
pub proof fn lemma_cleaned_keeps(raw: Seq<char>) -> (from: int)
    ensures
        0 <= from,
        from + cleaned(raw).len() <= raw.len(),
        forall|i: int|
            0 <= i < cleaned(raw).len() ==> {
                let c = raw[from + i];
                let d = #[trigger] cleaned(raw)[i];
                &&& 'a' <= c <= 'z' || '0' <= c <= '9' || c == '-' || c == '_' ==> d == c
                &&& 'A' <= c <= 'Z' ==> d as int == c as int + 32
                &&& !('a' <= c <= 'z') && !('A' <= c <= 'Z') && !('0' <= c <= '9') && c != '-' ==> d
                    == '_'
            },
        forall|i: int|
            0 <= i < from || from + cleaned(raw).len() <= i < raw.len() ==> !('a' <= #[trigger] raw[i]
                <= 'z') && !('A' <= raw[i] <= 'Z') && !('0' <= raw[i] <= '9'),
{
    let m = masked(raw);
    let a = lemma_front_cut_at(m);
    let mid = m.skip(a);
    let b = lemma_back_cut_at(mid);
    let t = mid.take(b);
    assert forall|i: int| 0 <= i < cleaned(raw).len() implies {
        let c = raw[a + i];
        let d = #[trigger] cleaned(raw)[i];
        &&& 'a' <= c <= 'z' || '0' <= c <= '9' || c == '-' || c == '_' ==> d == c
        &&& 'A' <= c <= 'Z' ==> d as int == c as int + 32
        &&& !('a' <= c <= 'z') && !('A' <= c <= 'Z') && !('0' <= c <= '9') && c != '-' ==> d == '_'
    } by {
        assert(t[i] == m[a + i]);
        assert(cleaned(raw)[i] == lower(t[i]));
    }
    assert forall|i: int| 0 <= i < a || a + b <= i < raw.len() implies !('a' <= #[trigger] raw[i] <= 'z')
        && !('A' <= raw[i] <= 'Z') && !('0' <= raw[i] <= '9') by {
        if i < a {
            assert(joint(m[i]));
        } else {
            assert(mid[i - a] == m[i]);
            assert(joint(mid[i - a]));
        }
    }
    a
}

/// Whether a manifest has that text under a key of a section.
pub open spec fn says_in(t: TomlTree, section: Seq<char>, key: Seq<char>, s: Seq<char>) -> bool {
    member(t, section) matches Some(m) && member(m, key) == Some(TomlTree::Text(s))
}

/// Where a manifest is asked for its parts: for the assets in `frontend.assets_dir` and then in
/// `assets_dir`, for the module in `backend.wasm_path` and then in `wasm`, and for the name in `app.id`
/// and then in `app_id`. Only texts are taken.
pub proof fn lemma_declarations(t: TomlTree, s: Seq<char>)
    ensures
        assets_dir(t) == Some(s) <==> says_in(t, "frontend"@, "assets_dir"@, s) || (member(
            t,
            "assets_dir"@,
        ) == Some(TomlTree::Text(s)) && forall|x: Seq<char>|
            !#[trigger] says_in(t, "frontend"@, "assets_dir"@, x)),
        wasm_path(t) == Some(s) <==> says_in(t, "backend"@, "wasm_path"@, s) || (member(t, "wasm"@)
            == Some(TomlTree::Text(s)) && forall|x: Seq<char>|
            !#[trigger] says_in(t, "backend"@, "wasm_path"@, x)),
        declared_name(t) == Some(s) <==> says_in(t, "app"@, "id"@, s) || (member(t, "app_id"@) == Some(
            TomlTree::Text(s),
        ) && forall|x: Seq<char>| !#[trigger] says_in(t, "app"@, "id"@, x)),
{
    lemma_section_first(t, "frontend"@, "assets_dir"@, "assets_dir"@, s);
    lemma_section_first(t, "backend"@, "wasm_path"@, "wasm"@, s);
    lemma_section_first(t, "app"@, "id"@, "app_id"@, s);
}

proof fn lemma_section_first(
    t: TomlTree,
    section: Seq<char>,
    inner: Seq<char>,
    outer: Seq<char>,
    s: Seq<char>,
)
    ensures
        declared(t, section, inner, outer) == Some(s) <==> says_in(t, section, inner, s) || (member(
            t,
            outer,
        ) == Some(TomlTree::Text(s)) && forall|x: Seq<char>| !#[trigger] says_in(t, section, inner, x)),
{
    if let Some(m) = member(t, section) {
        if let Some(TomlTree::Text(x)) = member(m, inner) {
            assert(says_in(t, section, inner, x));
        }
    }
}

/// An application is named by its manifest if that names it, else by its directory, and only where
/// neither leaves a name by what was drawn for it.
pub proof fn lemma_names_chosen(
    manifest: Option<TomlTree>,
    dir_name: Option<Seq<char>>,
    fresh: Seq<char>,
)
    ensures
        manifest matches Some(t) ==> (declared_name(t) matches Some(id) ==> (cleaned(id).len() > 0
            ==> app_name(manifest, dir_name, fresh) == cleaned(id)) && (cleaned(id).len() == 0
            ==> app_name(manifest, dir_name, fresh) == fresh)),
        (manifest is None || (manifest matches Some(t) && declared_name(t) is None)) ==> (
        dir_name matches Some(d) ==> (cleaned(d).len() > 0 ==> app_name(manifest, dir_name, fresh)
            == cleaned(d)) && (cleaned(d).len() == 0 ==> app_name(manifest, dir_name, fresh) == fresh)),
        (manifest is None || (manifest matches Some(t) && declared_name(t) is None)) && dir_name is None
            && cleaned(fresh).len() > 0 ==> app_name(manifest, dir_name, fresh) == cleaned(fresh),
{
}

/// A name neither begins nor ends with an underscore or a hyphen.
pub proof fn lemma_cleaned_ends(raw: Seq<char>)
    requires
        cleaned(raw).len() > 0,
    ensures
        cleaned(raw)[0] != '_' && cleaned(raw)[0] != '-',
        cleaned(raw).last() != '_' && cleaned(raw).last() != '-',
{
    lemma_cleaned(raw);
}

} // verus!

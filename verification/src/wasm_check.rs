//! What a guest module imports, and what it should not.

use crate::error::{error_message, invalid, CliError};
use crate::manifest::ManifestError;
use crate::text::{begins_with, occurs, occurs_at, texts};
use crate::text::{cat, cat3, same_text, starts_with};
use vstd::prelude::*;

verus! {

/// The size, in bytes, above which a module is not inspected.
pub const MAX_WASM_SIZE_BYTES: u64 = 5_242_880;

/// What comes of reading a module: for each of its parts the modules and names of what that part
/// imports, or a message that says what is wrong.
pub enum WasmParsed {
    Imports(Seq<Seq<(Seq<char>, Seq<char>)>>),
    Fault(Seq<char>),
}

/// What comes of reading bytes as a WebAssembly module.
pub uninterp spec fn wasm_parse(bytes: Seq<u8>) -> WasmParsed;

/// The modules and names of imports.
pub open spec fn import_names(v: Seq<(String, String)>) -> Seq<(Seq<char>, Seq<char>)> {
    Seq::new(v.len(), |i: int| (v[i].0@, v[i].1@))
}

/// The modules and names of the imports of each part.
pub open spec fn section_names(v: Seq<Vec<(String, String)>>) -> Seq<Seq<(Seq<char>, Seq<char>)>> {
    Seq::new(v.len(), |i: int| import_names(v[i]@))
}

/// `wasmparser::Parser::parse_all`: for each part of a module the modules and names of the imports
/// in it, which are none but for import sections; or the parser's message.
#[verifier::external_body]
fn read_imports(bytes: &[u8]) -> (r: Result<Vec<Vec<(String, String)>>, String>)
    ensures
        match r {
            Ok(v) => wasm_parse(bytes@) == WasmParsed::Imports(section_names(v@)),
            Err(e) => wasm_parse(bytes@) == WasmParsed::Fault(e@),
        },
{
    let parts = wasmparser::Parser::new(0).parse_all(bytes).map(|part| match part? {
        wasmparser::Payload::ImportSection(section) => section
            .into_imports()
            .map(|i| i.map(|i| (i.module.to_string(), i.name.to_string())))
            .collect(),
        _ => Ok(Vec::new()),
    });
    parts.collect::<Result<_, wasmparser::BinaryReaderError>>().map_err(|e| e.to_string())
}

/// Why an import of that name is not allowed, if it is not.
pub open spec fn forbidden(name: Seq<char>) -> Option<Seq<char>> {
    if name == "sock_accept"@ || name == "sock_connect"@ {
        Some(
            "Muted raw socket detected. Please route traffic through the AssetHost local loopback layer instead."@,
        )
    } else if name == "sock_send"@ {
        Some("Raw socket send is restricted. Please route traffic through AssetHost."@)
    } else if name == "sock_recv"@ {
        Some("Raw socket receive is restricted. Please route traffic through AssetHost."@)
    } else if name == "open_file"@ || name == "read_file"@ || name == "write_file"@ || name
        == "remove_file"@ || name == "rename_file"@ || name == "create_dir"@ || name
        == "remove_dir"@ {
        Some("Direct filesystem access is restricted. Use sandboxed store APIs instead."@)
    } else if name == "spawn_process"@ || name == "exec"@ {
        Some("Process execution is restricted inside the sandbox."@)
    } else {
        None
    }
}

fn forbidden_import(name: &str) -> (r: Option<&'static str>)
    ensures
        match r {
            Some(s) => forbidden(name@) == Some(s@),
            None => forbidden(name@) is None,
        },
{
    if same_text(name, "sock_accept") || same_text(name, "sock_connect") {
        Some(
            "Muted raw socket detected. Please route traffic through the AssetHost local loopback layer instead.",
        )
    } else if same_text(name, "sock_send") {
        Some("Raw socket send is restricted. Please route traffic through AssetHost.")
    } else if same_text(name, "sock_recv") {
        Some("Raw socket receive is restricted. Please route traffic through AssetHost.")
    } else if same_text(name, "open_file") || same_text(name, "read_file") || same_text(
        name,
        "write_file",
    ) || same_text(name, "remove_file") || same_text(name, "rename_file") || same_text(
        name,
        "create_dir",
    ) || same_text(name, "remove_dir") {
        Some("Direct filesystem access is restricted. Use sandboxed store APIs instead.")
    } else if same_text(name, "spawn_process") || same_text(name, "exec") {
        Some("Process execution is restricted inside the sandbox.")
    } else {
        None
    }
}

/// The warning about an import from a WASI module.
pub open spec fn wasi_warning(module: Seq<char>, name: Seq<char>) -> Seq<Seq<char>> {
    if begins_with(module, "wasi"@) {
        seq![
            "Unauthorized WASI host import '"@ + (module + "::"@ + name)
                + "'. Manifold v3.0 enforces a hardened sandbox boundary."@,
        ]
    } else {
        Seq::empty()
    }
}

/// The warning about an import whose name is not allowed.
pub open spec fn name_warning(module: Seq<char>, name: Seq<char>) -> Seq<Seq<char>> {
    match forbidden(name) {
        Some(why) => seq![
            "Forbidden host import '"@ + (module + "::"@ + name) + "': "@ + why,
        ],
        None => Seq::empty(),
    }
}

/// The warning about a raw socket.
pub open spec fn socket_warning(module: Seq<char>, name: Seq<char>) -> Seq<Seq<char>> {
    if module == "env"@ && name == "sock_connect"@ {
        seq![
            "Unauthorized raw socket connect import detected. Please use AssetHost instead."@,
        ]
    } else {
        Seq::empty()
    }
}

/// The warnings about an import.
pub open spec fn import_warnings(module: Seq<char>, name: Seq<char>) -> Seq<Seq<char>> {
    wasi_warning(module, name) + name_warning(module, name) + socket_warning(module, name)
}

/// The warnings about imports.
pub open spec fn part_warnings(imports: Seq<(Seq<char>, Seq<char>)>) -> Seq<Seq<char>>
    decreases imports.len(),
{
    if imports.len() == 0 {
        Seq::empty()
    } else {
        part_warnings(imports.drop_last()) + import_warnings(imports.last().0, imports.last().1)
    }
}

/// The warnings about a module.
pub open spec fn module_warnings(parts: Seq<Seq<(Seq<char>, Seq<char>)>>) -> Seq<Seq<char>>
    decreases parts.len(),
{
    if parts.len() == 0 {
        Seq::empty()
    } else {
        module_warnings(parts.drop_last()) + part_warnings(parts.last())
    }
}

fn warn_of(out: &mut Vec<String>, module: &str, name: &str)
    ensures
        texts(final(out)@) == texts(old(out)@) + import_warnings(module@, name@),
{
    let key = cat3(module, "::", name);
    if starts_with(module, "wasi") {
        out.push(
            cat3(
                "Unauthorized WASI host import '",
                key.as_str(),
                "'. Manifold v3.0 enforces a hardened sandbox boundary.",
            ),
        );
    }
    assert(texts(out@) =~= texts(old(out)@) + wasi_warning(module@, name@));
    match forbidden_import(name) {
        Some(why) => {
            let mut text = cat3("Forbidden host import '", key.as_str(), "': ");
            text.append(why);
            out.push(text);
        },
        None => {},
    }
    assert(texts(out@) =~= texts(old(out)@) + wasi_warning(module@, name@) + name_warning(
        module@,
        name@,
    ));
    if same_text(module, "env") && same_text(name, "sock_connect") {
        out.push(
            "Unauthorized raw socket connect import detected. Please use AssetHost instead.".to_owned(),
        );
    }
    assert(texts(out@) =~= texts(old(out)@) + import_warnings(module@, name@));
}

fn warn_of_part(out: &mut Vec<String>, imports: &Vec<(String, String)>)
    ensures
        texts(final(out)@) == texts(old(out)@) + part_warnings(import_names(imports@)),
{
    let ghost all = import_names(imports@);
    let mut i: usize = 0;
    assert(all.take(0) =~= Seq::<(Seq<char>, Seq<char>)>::empty());
    assert(texts(out@) =~= texts(old(out)@) + part_warnings(all.take(0)));
    while i < imports.len()
        invariant
            i <= imports@.len(),
            all == import_names(imports@),
            texts(out@) == texts(old(out)@) + part_warnings(all.take(i as int)),
        decreases imports.len() - i,
    {
        warn_of(out, imports[i].0.as_str(), imports[i].1.as_str());
        assert(all.take(i + 1).drop_last() =~= all.take(i as int));
        i += 1;
        assert(texts(out@) =~= texts(old(out)@) + part_warnings(all.take(i as int)));
    }
    assert(all.take(i as int) =~= all);
}

/// The warnings about what a module imports.
pub fn warnings_of(parts: &Vec<Vec<(String, String)>>) -> (r: Vec<String>)
    ensures
        texts(r@) == module_warnings(section_names(parts@)),
{
    let ghost all = section_names(parts@);
    let mut out: Vec<String> = Vec::new();
    let mut i: usize = 0;
    assert(all.take(0) =~= Seq::<Seq<(Seq<char>, Seq<char>)>>::empty());
    assert(texts(out@) =~= module_warnings(all.take(0)));
    while i < parts.len()
        invariant
            i <= parts@.len(),
            all == section_names(parts@),
            texts(out@) == module_warnings(all.take(i as int)),
        decreases parts.len() - i,
    {
        warn_of_part(&mut out, &parts[i]);
        assert(all.take(i + 1).drop_last() =~= all.take(i as int));
        i += 1;
    }
    assert(all.take(i as int) =~= all);
    out
}

/// Checks that a module of that many bytes is to be inspected.
pub fn check_wasm_size(size: u64) -> (r: Result<(), CliError>)
    ensures
        r is Ok <==> size <= MAX_WASM_SIZE_BYTES,
        r matches Err(e) ==> (e matches CliError::Validation(s) && s@
            == "WASM module exceeds the 5MB static validation limit"@),
{
    if size > MAX_WASM_SIZE_BYTES {
        Err(invalid("WASM module exceeds the 5MB static validation limit"))
    } else {
        Ok(())
    }
}

/// The warnings about what a module imports. One that is too large or cannot be read is an error.
pub fn inspect_wasm_imports(bytes: &[u8]) -> (r: Result<Vec<String>, CliError>)
    ensures
        if bytes@.len() > MAX_WASM_SIZE_BYTES {
            r matches Err(CliError::Validation(s)) && s@
                == "WASM module exceeds the 5MB static validation limit"@
        } else {
            match wasm_parse(bytes@) {
                WasmParsed::Imports(parts) => r matches Ok(v) && texts(v@) == module_warnings(
                    parts,
                ),
                WasmParsed::Fault(e) => r matches Err(CliError::Anyhow(s)) && s@ == e,
            }
        },
{
    match check_wasm_size(bytes.len() as u64) {
        Ok(_) => {},
        Err(e) => {
            return Err(e);
        },
    }
    match read_imports(bytes) {
        Ok(parts) => Ok(warnings_of(&parts)),
        Err(e) => Err(CliError::Anyhow(e)),
    }
}

/// A module whose imports are all of another kind is not warned about, and each warning is due to
/// an import.
pub proof fn lemma_warned(parts: Seq<Seq<(Seq<char>, Seq<char>)>>)
    ensures
        module_warnings(parts).len() == 0 <==> forall|i: int, j: int|
            0 <= i < parts.len() && 0 <= j < parts[i].len() ==> !suspect(#[trigger] parts[i][j]),
    decreases parts.len(),
{
    if parts.len() > 0 {
        let front = parts.drop_last();
        lemma_warned(front);
        lemma_part_warned(parts.last());
        if module_warnings(parts).len() == 0 {
            assert forall|i: int, j: int|
                0 <= i < parts.len() && 0 <= j < parts[i].len() implies !suspect(
                #[trigger] parts[i][j],
            ) by {
                if i < front.len() {
                    assert(front[i][j] == parts[i][j]);
                } else {
                    assert(parts.last()[j] == parts[i][j]);
                }
            }
        } else if forall|i: int, j: int|
            0 <= i < parts.len() && 0 <= j < parts[i].len() ==> !suspect(#[trigger] parts[i][j]) {
            assert forall|i: int, j: int|
                0 <= i < front.len() && 0 <= j < front[i].len() implies !suspect(
                #[trigger] front[i][j],
            ) by {
                assert(parts[i][j] == front[i][j]);
            }
            assert forall|j: int| 0 <= j < parts.last().len() implies !suspect(
                #[trigger] parts.last()[j],
            ) by {
                assert(parts[parts.len() - 1][j] == parts.last()[j]);
            }
        }
    }
}

/// Whether an import is warned about: it comes from a WASI module or its name is not allowed.
pub open spec fn suspect(import: (Seq<char>, Seq<char>)) -> bool {
    begins_with(import.0, "wasi"@) || forbidden(import.1) is Some
}

proof fn lemma_part_warned(imports: Seq<(Seq<char>, Seq<char>)>)
    ensures
        part_warnings(imports).len() == 0 <==> forall|j: int|
            0 <= j < imports.len() ==> !suspect(#[trigger] imports[j]),
    decreases imports.len(),
{
    if imports.len() > 0 {
        let front = imports.drop_last();
        lemma_part_warned(front);
        assert(imports[imports.len() - 1] == imports.last());
        if forall|j: int| 0 <= j < imports.len() ==> !suspect(#[trigger] imports[j]) {
            assert forall|j: int| 0 <= j < front.len() implies !suspect(#[trigger] front[j]) by {
                assert(imports[j] == front[j]);
            }
        } else if part_warnings(imports).len() == 0 {
            assert forall|j: int| 0 <= j < imports.len() implies !suspect(#[trigger] imports[j]) by {
                if j < front.len() {
                    assert(front[j] == imports[j]);
                }
            }
        }
    }
}

/// What was found in the directory of an application.
#[derive(Debug)]
pub enum Finding {
    /// There is no manifest in this directory.
    NoManifest(String),
    /// The manifest does not say where the parts are.
    BadManifest(ManifestError),
    /// The assets are not where the manifest says.
    NoFrontend(String),
    /// The module is not where the manifest says.
    NoBackend(String),
    /// The module was inspected, with these warnings.
    Inspected(Vec<String>),
}

/// What is reported of a finding, and the error that the check ends with, if it does.
#[derive(Debug)]
pub struct Verdict {
    pub lines: Vec<String>,
    pub error: Option<CliError>,
}

/// The lines for warnings.
pub open spec fn warning_lines(warnings: Seq<Seq<char>>) -> Seq<Seq<char>> {
    Seq::new(warnings.len(), |i: int| "[WARN][Validator] "@ + warnings[i])
}

/// Whether an error is the one about invalid input that says so.
pub open spec fn says(error: Option<CliError>, text: Seq<char>) -> bool {
    error matches Some(e) && error_message(e) == "validation error: "@ + text
}

fn report_warnings(warnings: &Vec<String>) -> (r: Vec<String>)
    ensures
        texts(r@) == warning_lines(texts(warnings@)),
{
    let mut out: Vec<String> = Vec::new();
    let mut i: usize = 0;
    while i < warnings.len()
        invariant
            i <= warnings@.len(),
            out@.len() == i,
            forall|j: int|
                0 <= j < i ==> (#[trigger] out@[j])@ == "[WARN][Validator] "@ + warnings@[j]@,
        decreases warnings.len() - i,
    {
        out.push(cat("[WARN][Validator] ", warnings[i].as_str()));
        i += 1;
    }
    assert(texts(out@) =~= warning_lines(texts(warnings@)));
    out
}

fn verdict(line: String, error: Option<CliError>) -> (r: Verdict)
    ensures
        texts(r.lines@) == seq![line@],
        r.error == error,
{
    let mut lines: Vec<String> = Vec::new();
    lines.push(line);
    assert(texts(lines@) =~= seq![line@]);
    Verdict { lines, error }
}

/// Judges a finding. Warnings about imports are advice: they are reported, and stop nothing.
pub fn judge(finding: &Finding) -> (r: Verdict)
    ensures
        match finding {
            Finding::NoManifest(dir) => texts(r.lines@) == seq![
                "[ERROR][Validator] No manifest found in "@ + dir@
                    + ". Expected manifold.toml in the dApp root."@,
            ] && says(r.error, "manifest missing"@),
            Finding::BadManifest(e) => match e {
                ManifestError::Parse(s) => texts(r.lines@) == seq![
                    "[ERROR][Validator] failed to parse manifold.toml: "@ + s@,
                ] && says(r.error, "manifest parse failed"@),
                ManifestError::MissingFrontend => texts(r.lines@) == seq![
                    "[ERROR][Validator] Missing required manifest field `frontend.assets_dir` or `assets_dir`."@,
                ] && says(r.error, "frontend assets declaration missing"@),
                ManifestError::MissingBackend => texts(r.lines@) == seq![
                    "[ERROR][Validator] Missing required manifest field `backend.wasm_path` or `wasm`."@,
                ] && says(r.error, "backend wasm declaration missing"@),
            },
            Finding::NoFrontend(dir) => texts(r.lines@) == seq![
                "[ERROR][Validator] Frontend assets directory '"@ + dir@
                    + "' is missing or invalid. Please ensure the path exists and is declared in manifold.toml."@,
            ] && says(r.error, "frontend assets directory validation failed"@),
            Finding::NoBackend(path) => texts(r.lines@) == seq![
                "[ERROR][Validator] Backend WASM module '"@ + path@
                    + "' is missing or invalid. Please ensure the path exists and is declared in manifold.toml."@,
            ] && says(r.error, "backend wasm path validation failed"@),
            Finding::Inspected(warnings) => if warnings@.len() == 0 {
                texts(r.lines@) == seq![
                    "[INFO][Validator] dApp architecture passes v3.0 enforcement specs. Ready for execution."@,
                ] && r.error is None
            } else {
                texts(r.lines@) == warning_lines(texts(warnings@)) && r.error is None
            },
        },
{
    match finding {
        Finding::NoManifest(dir) => verdict(
            cat3(
                "[ERROR][Validator] No manifest found in ",
                dir.as_str(),
                ". Expected manifold.toml in the dApp root.",
            ),
            Some(invalid("manifest missing")),
        ),
        Finding::BadManifest(e) => verdict(e.line(), Some(e.error())),
        Finding::NoFrontend(dir) => verdict(
            cat3(
                "[ERROR][Validator] Frontend assets directory '",
                dir.as_str(),
                "' is missing or invalid. Please ensure the path exists and is declared in manifold.toml.",
            ),
            Some(invalid("frontend assets directory validation failed")),
        ),
        Finding::NoBackend(path) => verdict(
            cat3(
                "[ERROR][Validator] Backend WASM module '",
                path.as_str(),
                "' is missing or invalid. Please ensure the path exists and is declared in manifold.toml.",
            ),
            Some(invalid("backend wasm path validation failed")),
        ),
        Finding::Inspected(warnings) => if warnings.len() == 0 {
            verdict(
                "[INFO][Validator] dApp architecture passes v3.0 enforcement specs. Ready for execution.".to_owned(),
                None,
            )
        } else {
            Verdict { lines: report_warnings(warnings), error: None }
        },
    }
}

/// Whether an import is one of those that the sandbox forbids: sockets, files and processes.
pub open spec fn off_limits(name: Seq<char>) -> bool {
    ||| name == "sock_accept"@ || name == "sock_connect"@ || name == "sock_send"@ || name == "sock_recv"@
    ||| name == "open_file"@ || name == "read_file"@ || name == "write_file"@ || name == "remove_file"@
    ||| name == "rename_file"@ || name == "create_dir"@ || name == "remove_dir"@
    ||| name == "spawn_process"@ || name == "exec"@
}

/// An import is suspect if and only if it comes from a module whose name begins with `wasi`, or its
/// name is off limits.
pub proof fn lemma_suspects(import: (Seq<char>, Seq<char>))
    ensures
        suspect(import) <==> (import.0.len() >= 4 && import.0.take(4) == seq!['w', 'a', 's', 'i'])
            || off_limits(import.1),
        forbidden(import.1) is Some <==> off_limits(import.1),
{
    reveal_strlit("wasi");
    let w = "wasi"@;
    assert(w =~= seq!['w', 'a', 's', 'i']);
    if import.0.len() >= 4 {
        assert(import.0.subrange(0, 4) =~= import.0.take(4));
    }
}

/// Every suspect import is warned of by its module and its name.
pub proof fn lemma_suspect_named(
    parts: Seq<Seq<(Seq<char>, Seq<char>)>>,
    i: int,
    j: int,
)
    requires
        0 <= i < parts.len(),
        0 <= j < parts[i].len(),
        suspect(parts[i][j]),
    ensures
        exists|k: int|
            0 <= k < module_warnings(parts).len() && occurs(
                #[trigger] module_warnings(parts)[k],
                parts[i][j].0 + "::"@ + parts[i][j].1,
            ),
    decreases parts.len(),
{
    let front = parts.drop_last();
    let w = module_warnings(parts);
    let a = module_warnings(front);
    if i < front.len() {
        assert(front[i] == parts[i]);
        lemma_suspect_named(front, i, j);
        let k = choose|k: int|
            0 <= k < a.len() && occurs(
                #[trigger] a[k],
                parts[i][j].0 + "::"@ + parts[i][j].1,
            );
        assert(w[k] == a[k]);
    } else {
        let k = lemma_part_named(parts.last(), j);
        assert(w[a.len() + k] == part_warnings(parts.last())[k]);
    }
}

proof fn lemma_part_named(imports: Seq<(Seq<char>, Seq<char>)>, j: int) -> (k: int)
    requires
        0 <= j < imports.len(),
        suspect(imports[j]),
    ensures
        0 <= k < part_warnings(imports).len(),
        occurs(part_warnings(imports)[k], imports[j].0 + "::"@ + imports[j].1),
    decreases imports.len(),
{
    let front = imports.drop_last();
    let a = part_warnings(front);
    let w = part_warnings(imports);
    if j < front.len() {
        assert(front[j] == imports[j]);
        let k = lemma_part_named(front, j);
        assert(w[k] == a[k]);
        k
    } else {
        let (m, n) = imports[j];
        let which = m + "::"@ + n;
        let more = import_warnings(m, n);
        let text = more[0];
        if begins_with(m, "wasi"@) {
            let head = "Unauthorized WASI host import '"@;
            assert(text == wasi_warning(m, n)[0]);
            assert(text.subrange(head.len() as int, 0int + head.len() + which.len()) =~= which);
            assert(occurs_at(text, which, head.len() as int));
        } else {
            let head = "Forbidden host import '"@;
            assert(wasi_warning(m, n) + name_warning(m, n) =~= name_warning(m, n));
            assert(text == name_warning(m, n)[0]);
            assert(text.subrange(head.len() as int, 0int + head.len() + which.len()) =~= which);
            assert(occurs_at(text, which, head.len() as int));
        }
        assert(w[a.len() as int] == text);
        a.len() as int
    }
}

/// A module may be five megabytes long.
pub proof fn lemma_size_limit()
    ensures
        MAX_WASM_SIZE_BYTES == 5 * 1024 * 1024,
{
}

/// Each warning has a line of its own, behind the mark of the validator.
pub proof fn lemma_warnings_reported(warnings: Seq<Seq<char>>, i: int)
    requires
        0 <= i < warnings.len(),
    ensures
        warning_lines(warnings).len() == warnings.len(),
        warning_lines(warnings)[i] == "[WARN][Validator] "@ + warnings[i],
{
}

/// What is said of an import: of one from a `wasi` module that it is not authorised, of one whose name
/// is off limits what is to be used instead, of a connection from `env` that it is seen, and nothing of
/// any other.
pub proof fn lemma_warnings_worded(module: Seq<char>, name: Seq<char>)
    ensures
        !suspect((module, name)) ==> import_warnings(module, name).len() == 0,
        begins_with(module, "wasi"@) ==> import_warnings(module, name).len() > 0 && import_warnings(
            module,
            name,
        )[0] == "Unauthorized WASI host import '"@ + module + "::"@ + name
            + "'. Manifold v3.0 enforces a hardened sandbox boundary."@,
        begins_with(module, "wasi"@) && !off_limits(name) ==> import_warnings(module, name).len() == 1,
        begins_with(module, "wasi"@) && off_limits(name) ==> import_warnings(module, name).len() == 2,
        !begins_with(module, "wasi"@) && off_limits(name) && !(module == "env"@ && name
            == "sock_connect"@) ==> import_warnings(module, name).len() == 1,
        module == "env"@ && name == "sock_connect"@ ==> import_warnings(module, name).len() == 2
            && import_warnings(module, name)[1]
            == "Unauthorized raw socket connect import detected. Please use AssetHost instead."@,
        off_limits(name) && !begins_with(module, "wasi"@) ==> begins_with(
            import_warnings(module, name)[0],
            "Forbidden host import '"@ + module + "::"@ + name + "': "@,
        ) && import_warnings(module, name)[0].skip(
            ("Forbidden host import '"@ + module + "::"@ + name + "': "@).len() as int,
        ) == if name == "sock_accept"@ || name == "sock_connect"@ {
            "Muted raw socket detected. Please route traffic through the AssetHost local loopback layer instead."@
        } else if name == "sock_send"@ {
            "Raw socket send is restricted. Please route traffic through AssetHost."@
        } else if name == "sock_recv"@ {
            "Raw socket receive is restricted. Please route traffic through AssetHost."@
        } else if name == "spawn_process"@ || name == "exec"@ {
            "Process execution is restricted inside the sandbox."@
        } else {
            "Direct filesystem access is restricted. Use sandboxed store APIs instead."@
        },
{
    reveal_strlit("env");
    reveal_strlit("wasi");
    assert("env"@[0] == 'e' && "wasi"@[0] == 'w' && "wasi"@.len() == 4);
    reveal_strlit("spawn_process");
    reveal_strlit("exec");
    reveal_strlit("open_file");
    reveal_strlit("read_file");
    reveal_strlit("write_file");
    reveal_strlit("remove_file");
    reveal_strlit("rename_file");
    reveal_strlit("create_dir");
    reveal_strlit("remove_dir");
    reveal_strlit("sock_accept");
    reveal_strlit("sock_connect");
    reveal_strlit("sock_send");
    reveal_strlit("sock_recv");
    assert("sock_accept"@[5] == 'a' && "sock_connect"@[5] == 'c' && "sock_send"@[5] == 's' && "sock_recv"@[5]
        == 'r' && "sock_accept"@[0] == 's' && "sock_connect"@[0] == 's' && "sock_send"@[0] == 's'
        && "sock_recv"@[0] == 's' && "exec"@.len() == 4 && "spawn_process"@.len() == 13
        && "spawn_process"@[1] == 'p' && "sock_accept"@[1] == 'o' && "sock_connect"@[1] == 'o'
        && "sock_send"@[1] == 'o' && "sock_recv"@[1] == 'o' && "open_file"@[0] == 'o'
        && "read_file"@[0] == 'r' && "write_file"@[0] == 'w' && "remove_file"@[0] == 'r'
        && "rename_file"@[0] == 'r' && "create_dir"@[0] == 'c' && "remove_dir"@[0] == 'r'
        && "open_file"@.len() == 9);
    let w = wasi_warning(module, name);
    if begins_with(module, "wasi"@) {
        if module == "env"@ {
            assert(module.subrange(0, 4)[0] == 'w');
        }
        assert("Unauthorized WASI host import '"@ + (module + "::"@ + name) =~= "Unauthorized WASI host import '"@
            + module + "::"@ + name);
    }
    if let Some(why) = forbidden(name) {
        let head = "Forbidden host import '"@ + module + "::"@ + name + "': "@;
        assert("Forbidden host import '"@ + (module + "::"@ + name) + "': "@ =~= head);
        assert((head + why).subrange(0, head.len() as int) =~= head);
        assert((head + why).skip(head.len() as int) =~= why);
    }
}

} // verus!

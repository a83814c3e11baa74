//! The decisions of the developer CLI: argument records, contract-name
//! checks and case conversions, URL checks, the WASM size budget and the
//! cargo / stellar command lines that each subcommand runs.
use vstd::prelude::*;

verus! {

/// Largest accepted size of a contract's WASM artifact, in bytes.
pub const SIZE_BUDGET_BYTES: u64 = 150_000;

/// Arguments of `soroban-forge build`.
#[derive(Clone, Debug)]
pub struct BuildArgs {
    /// Crate to build; builds the whole workspace (or, for WASM, every
    /// contract) when omitted.
    pub package: Option<String>,
    pub release: bool,
    pub all_targets: bool,
    /// Build release WASM for the contract target.
    pub wasm: bool,
    /// Check the WASM artifacts against the size budget (implies `wasm`).
    pub check_size: bool,
}

impl BuildArgs {
    /// Whether the build produces release WASM: asked for, or implied by
    /// the size check.
    pub fn builds_wasm(&self) -> (b: bool)
        ensures
            b == (self.wasm || self.check_size),
    {
        self.wasm || self.check_size
    }
}

/// Arguments of `soroban-forge lint`.
#[derive(Clone, Debug)]
pub struct LintArgs {
    pub fix: bool,
}

/// Arguments of `soroban-forge test`.
#[derive(Clone, Debug)]
pub struct TestArgs {
    /// Crate to test; tests the whole workspace when omitted.
    pub package: Option<String>,
}

/// Arguments of `soroban-forge deploy`.
#[derive(Clone, Debug)]
pub struct DeployArgs {
    pub wasm: String,
    pub network: String,
    pub source: Option<String>,
}

/// Arguments of `soroban-forge new`.
#[derive(Clone, Debug)]
pub struct NewArgs {
    /// Contract name (alphanumeric, hyphens, or underscores).
    pub name: String,
    /// Destination directory for the new contract.
    pub path: Option<String>,
}

/// The subcommands of the CLI.
#[derive(Clone, Debug)]
pub enum Commands {
    Build(BuildArgs),
    Lint(LintArgs),
    Test(TestArgs),
    Deploy(DeployArgs),
    New(NewArgs),
}

/// Errors of the CLI.
#[derive(Clone, Debug)]
pub enum CliError {
    CommandFailed(String),
    ConfigError(String),
    NetworkError(String),
}

/// Why a contract name was refused.
#[derive(Clone, Copy, Debug, PartialEq, Eq, Structural)]
pub enum NameError {
    /// The name is empty or only whitespace.
    Empty,
    /// The name holds a character other than an alphanumeric, `-` or `_`.
    InvalidCharacters,
}

/// Why a URL was refused.
#[derive(Clone, Copy, Debug, PartialEq, Eq, Structural)]
pub enum UrlError {
    /// Neither `http://` nor `https://` starts it.
    MissingScheme,
}

/// Whether `c` is alphanumeric in Unicode's sense (`char::is_alphanumeric`).
pub uninterp spec fn unicode_alphanumeric(c: char) -> bool;

/// The lowercase form of a string in Unicode's sense (`str::to_lowercase`).
pub uninterp spec fn unicode_lowercase(s: Seq<char>) -> Seq<char>;

/// `char::is_alphanumeric`: whether `c` has Unicode's Alphabetic or
/// Numeric property. The result is named, not stated.
#[verifier::external_body]
fn char_is_alphanumeric(c: char) -> (b: bool)
    ensures
        b == unicode_alphanumeric(c),
{
    c.is_alphanumeric()
}

/// Whether every character of `s` is ASCII.
pub open spec fn is_ascii_text(s: Seq<char>) -> bool {
    forall|i: int| 0 <= i < s.len() ==> (#[trigger] s[i] as u32) < 128
}

/// The ASCII lowercase of `c`: `A`..=`Z` become `a`..=`z`, every other
/// character stays.
pub open spec fn ascii_lower(c: char) -> char {
    if 65 <= (c as u32) <= 90 {
        ((c as u32) + 32) as char
    } else {
        c
    }
}

/// `s` with each character lowered by [`ascii_lower`].
pub open spec fn ascii_lowercase(s: Seq<char>) -> Seq<char> {
    s.map_values(|c: char| ascii_lower(c))
}

/// `str::to_lowercase`: the lowercase form of `s`. In general the result
/// is named, not stated (Unicode's case tables); on ASCII text it is the
/// character-wise ASCII lowering, since Unicode lowercases `A`..=`Z` to
/// `a`..=`z` and leaves the other ASCII characters as they are.
#[verifier::external_body]
fn str_to_lowercase(s: &str) -> (r: String)
    ensures
        r@ == unicode_lowercase(s@),
        is_ascii_text(s@) ==> r@ == ascii_lowercase(s@),
{
    s.to_lowercase()
}

/// `String::push`: appends `c`.
#[verifier::external_body]
fn string_push(s: &mut String, c: char)
    ensures
        final(s)@ == old(s)@.push(c),
{
    s.push(c)
}

/// Unicode's White_Space property (the set that `char::is_whitespace`
/// tests).
pub open spec fn white_space(c: char) -> bool {
    ||| '\u{9}' <= c <= '\u{d}'
    ||| c == ' '
    ||| c == '\u{85}'
    ||| c == '\u{a0}'
    ||| c == '\u{1680}'
    ||| '\u{2000}' <= c <= '\u{200a}'
    ||| c == '\u{2028}'
    ||| c == '\u{2029}'
    ||| c == '\u{202f}'
    ||| c == '\u{205f}'
    ||| c == '\u{3000}'
}

/// Whether `c` has Unicode's White_Space property.
pub fn is_white_space(c: char) -> (b: bool)
    ensures
        b == white_space(c),
{
    ('\u{9}' <= c && c <= '\u{d}') || c == ' ' || c == '\u{85}' || c == '\u{a0}' || c
        == '\u{1680}' || ('\u{2000}' <= c && c <= '\u{200a}') || c == '\u{2028}' || c
        == '\u{2029}' || c == '\u{202f}' || c == '\u{205f}' || c == '\u{3000}'
}

/// A character allowed in a contract name.
pub open spec fn name_char(c: char) -> bool {
    unicode_alphanumeric(c) || c == '-' || c == '_'
}

/// The characters of `s`.
pub fn chars_of(s: &str) -> (v: Vec<char>)
    ensures
        v@ == s@,
{
    let mut v: Vec<char> = Vec::new();
    for c in it: s.chars()
        invariant
            v@ == it.seq().take(it.index() as int),
    {
        v.push(c);
    }
    v
}

/// Check a contract name: it must hold a non-whitespace character and
/// consist of alphanumerics, hyphens and underscores only.
pub fn validate_contract_name(name: &str) -> (r: Result<(), NameError>)
    ensures
        r == if forall|i: int| 0 <= i < name@.len() ==> white_space(#[trigger] name@[i]) {
            Err(NameError::Empty)
        } else if exists|i: int| 0 <= i < name@.len() && !name_char(#[trigger] name@[i]) {
            Err(NameError::InvalidCharacters)
        } else {
            Ok::<(), NameError>(())
        },
{
    let cs = chars_of(name);
    let mut all_white = true;
    let mut i: usize = 0;
    while i < cs.len()
        invariant
            i <= cs@.len(),
            cs@ == name@,
            all_white == forall|j: int| 0 <= j < i ==> white_space(#[trigger] cs@[j]),
        decreases cs@.len() - i,
    {
        if !is_white_space(cs[i]) {
            all_white = false;
        }
        i += 1;
    }
    if all_white {
        return Err(NameError::Empty);
    }
    let mut i: usize = 0;
    while i < cs.len()
        invariant
            i <= cs@.len(),
            cs@ == name@,
            forall|j: int| 0 <= j < i ==> name_char(#[trigger] cs@[j]),
            !(forall|j: int| 0 <= j < name@.len() ==> white_space(#[trigger] name@[j])),
        decreases cs@.len() - i,
    {
        let c = cs[i];
        if !(char_is_alphanumeric(c) || c == '-' || c == '_') {
            proof {
                assert(!name_char(name@[i as int]));
            }
            return Err(NameError::InvalidCharacters);
        }
        i += 1;
    }
    Ok(())
}

/// `s` with every `from` replaced by `to`.
pub open spec fn replace_char(s: Seq<char>, from: char, to: char) -> Seq<char> {
    s.map_values(|c: char| if c == from { to } else { c })
}

fn replaced(s: &str, from: char, to: char) -> (r: String)
    ensures
        r@ == replace_char(s@, from, to),
{
    let cs = chars_of(s);
    let mut out = String::new();
    let mut i: usize = 0;
    while i < cs.len()
        invariant
            i <= cs@.len(),
            cs@ == s@,
            out@ == replace_char(cs@.subrange(0, i as int), from, to),
        decreases cs@.len() - i,
    {
        let c = cs[i];
        string_push(&mut out, if c == from { to } else { c });
        proof {
            assert(replace_char(cs@.subrange(0, i + 1), from, to) =~= replace_char(
                cs@.subrange(0, i as int),
                from,
                to,
            ).push(if c == from { to } else { c }));
        }
        i += 1;
    }
    proof {
        assert(cs@.subrange(0, cs@.len() as int) =~= cs@);
    }
    out
}

/// Kebab-case a contract name: underscores become hyphens, then the name
/// is lowercased (`my_contract` -> `my-contract`).
pub fn to_kebab_case(name: &str) -> (r: String)
    ensures
        r@ == unicode_lowercase(replace_char(name@, '_', '-')),
        is_ascii_text(name@) ==> r@ == ascii_lowercase(replace_char(name@, '_', '-')),
{
    let s = replaced(name, '_', '-');
    proof {
        lemma_replace_keeps_ascii(name@, '_', '-');
    }
    str_to_lowercase(s.as_str())
}

/// Snake-case a contract name: hyphens become underscores, then the name
/// is lowercased (`my-contract` -> `my_contract`).
pub fn to_snake_case(name: &str) -> (r: String)
    ensures
        r@ == unicode_lowercase(replace_char(name@, '-', '_')),
        is_ascii_text(name@) ==> r@ == ascii_lowercase(replace_char(name@, '-', '_')),
{
    let s = replaced(name, '-', '_');
    proof {
        lemma_replace_keeps_ascii(name@, '-', '_');
    }
    str_to_lowercase(s.as_str())
}

proof fn lemma_replace_keeps_ascii(s: Seq<char>, from: char, to: char)
    requires
        (to as u32) < 128,
    ensures
        is_ascii_text(s) ==> is_ascii_text(replace_char(s, from, to)),
{
}

/// The case conversions of an ASCII name. Its kebab case (what
/// `to_kebab_case` returns) has the name's length, holds no `_` and no
/// uppercase letter, and is the name with each `_` made `-` and each
/// letter lowered. Its snake case (what `to_snake_case` returns) is ASCII
/// again, and the kebab case of the snake case is the kebab case of the
/// name, so converting through snake case loses nothing.
pub proof fn lemma_ascii_case_conversions(name: Seq<char>)
    requires
        is_ascii_text(name),
    ensures
        ({
            let kebab = ascii_lowercase(replace_char(name, '_', '-'));
            let snake = ascii_lowercase(replace_char(name, '-', '_'));
            &&& kebab.len() == name.len()
            &&& !kebab.contains('_')
            &&& forall|i: int| 0 <= i < kebab.len() ==> !(65 <= (#[trigger] kebab[i] as u32) <= 90)
            &&& forall|i: int|
                0 <= i < name.len() ==> #[trigger] kebab[i] == if name[i] == '_' {
                    '-'
                } else {
                    ascii_lower(name[i])
                }
            &&& is_ascii_text(snake)
            &&& ascii_lowercase(replace_char(snake, '_', '-')) == kebab
        }),
{
    let kebab = ascii_lowercase(replace_char(name, '_', '-'));
    let snake = ascii_lowercase(replace_char(name, '-', '_'));
    assert forall|i: int| 0 <= i < name.len() implies (#[trigger] kebab[i] == if name[i] == '_' {
        '-'
    } else {
        ascii_lower(name[i])
    }) && kebab[i] != '_' && !(65 <= (kebab[i] as u32) <= 90) && (snake[i] as u32) < 128 by {
        let c = name[i];
        assert((c as u32) < 128);
        if 65 <= (c as u32) <= 90 {
            assert(((c as u32) + 32) as char as u32 == (c as u32) + 32);
        }
    }
    assert(!kebab.contains('_')) by {
        if kebab.contains('_') {
            let k = choose|k: int| 0 <= k < kebab.len() && kebab[k] == '_';
            assert(kebab[k] != '_');
        }
    }
    let back = ascii_lowercase(replace_char(snake, '_', '-'));
    assert forall|i: int| 0 <= i < name.len() implies back[i] == kebab[i] by {
        let c = name[i];
        if 65 <= (c as u32) <= 90 {
            assert(((c as u32) + 32) as char as u32 == (c as u32) + 32);
        }
    }
    assert(back =~= kebab);
}

/// Whether `p` starts `s`.
pub open spec fn starts_with(s: Seq<char>, p: Seq<char>) -> bool {
    p.len() <= s.len() && s.subrange(0, p.len() as int) == p
}

fn has_prefix(s: &Vec<char>, p: &Vec<char>) -> (b: bool)
    ensures
        b == starts_with(s@, p@),
{
    if p.len() > s.len() {
        return false;
    }
    let mut i: usize = 0;
    while i < p.len()
        invariant
            i <= p@.len() <= s@.len(),
            forall|j: int| 0 <= j < i ==> s@[j] == p@[j],
        decreases p@.len() - i,
    {
        if s[i] != p[i] {
            proof {
                assert(s@.subrange(0, p@.len() as int)[i as int] != p@[i as int]);
            }
            return false;
        }
        i += 1;
    }
    proof {
        assert(s@.subrange(0, p@.len() as int) =~= p@);
    }
    true
}

/// Accept a URL that starts with `http://` or `https://`.
pub fn validate_url(url: &str) -> (r: Result<(), UrlError>)
    ensures
        r is Ok <==> starts_with(url@, "http://"@) || starts_with(url@, "https://"@),
        r is Err ==> r == Err::<(), UrlError>(UrlError::MissingScheme),
{
    let u = chars_of(url);
    let http = chars_of("http://");
    let https = chars_of("https://");
    if has_prefix(&u, &http) || has_prefix(&u, &https) {
        Ok(())
    } else {
        Err(UrlError::MissingScheme)
    }
}

/// Whether an artifact of `size_bytes` fits the WASM size budget.
pub fn within_size_budget(size_bytes: u64) -> (b: bool)
    ensures
        b == (size_bytes <= SIZE_BUDGET_BYTES),
{
    size_bytes <= SIZE_BUDGET_BYTES
}

/// The text of each argument.
pub open spec fn arg_texts(v: Seq<String>) -> Seq<Seq<char>> {
    v.map_values(|s: String| s@)
}

fn push_arg(v: &mut Vec<String>, s: &str)
    ensures
        arg_texts(final(v)@) == arg_texts(old(v)@).push(s@),
{
    v.push(s.to_owned());
    proof {
        assert(arg_texts(v@) =~= arg_texts(old(v)@).push(s@));
    }
}

fn push_string(v: &mut Vec<String>, s: &String)
    ensures
        arg_texts(final(v)@) == arg_texts(old(v)@).push(s@),
{
    v.push(s.clone());
    proof {
        assert(arg_texts(v@) =~= arg_texts(old(v)@).push(s@));
    }
}

/// The contract packages built when `build --wasm` names none.
pub open spec fn contract_package_args() -> Seq<Seq<char>> {
    seq![
        "--package"@, "soroban-forge-escrow"@,
        "--package"@, "soroban-forge-vesting"@,
        "--package"@, "soroban-forge-multi-sig-wallet"@,
        "--package"@, "soroban-forge-dao-governance"@,
        "--package"@, "soroban-forge-subscription-payments"@,
        "--package"@, "soroban-forge-marketplace-royalties"@,
    ]
}

/// The cargo arguments of `build`: WASM builds (asked for, or implied by
/// the size check) are release builds for `wasm32v1-none`; without a
/// package a WASM build names every contract, a native one the workspace.
pub open spec fn build_arg_texts(args: BuildArgs) -> Seq<Seq<char>> {
    let wasm = args.wasm || args.check_size;
    seq!["build"@] + (if wasm {
        seq!["--release"@, "--target"@, "wasm32v1-none"@]
    } else {
        Seq::empty()
    }) + (match args.package {
        Some(p) => seq!["--package"@, p@],
        None => if wasm {
            contract_package_args()
        } else {
            seq!["--workspace"@]
        },
    }) + (if args.release && !wasm {
        seq!["--release"@]
    } else {
        Seq::empty()
    }) + (if args.all_targets {
        seq!["--all-targets"@]
    } else {
        Seq::empty()
    })
}

/// What the cargo arguments of `build` say, flag by flag. They start with
/// `build`. `--release` is passed exactly when a release build is asked
/// for or the build is a WASM build (the WASM target and the size check
/// always build in release), whether or not a package is named; only a
/// package literally called `--release` could put it there otherwise. A
/// WASM build passes `--target wasm32v1-none`; a named package is passed as
/// `--package <name>`; a native build of no named package builds the
/// workspace; `--all-targets` is passed when asked for.
pub proof fn lemma_build_args_flags(args: BuildArgs)
    ensures
        ({
            let t = build_arg_texts(args);
            let wasm = args.wasm || args.check_size;
            &&& t.len() > 0 && t[0] == "build"@
            &&& (args.release || wasm) ==> t.contains("--release"@)
            &&& (!args.release && !wasm && (args.package matches Some(p) ==> p@ != "--release"@))
                ==> !t.contains("--release"@)
            &&& wasm ==> exists|i: int|
                0 <= i < t.len() - 1 && #[trigger] t[i] == "--target"@ && t[i + 1]
                    == "wasm32v1-none"@
            &&& args.package matches Some(p) ==> exists|i: int|
                0 <= i < t.len() - 1 && #[trigger] t[i] == "--package"@ && t[i + 1] == p@
            &&& (args.package is None && !wasm) ==> t.contains("--workspace"@)
            &&& args.all_targets ==> t.contains("--all-targets"@)
        }),
{
    let t = build_arg_texts(args);
    let wasm = args.wasm || args.check_size;
    let p2: Seq<Seq<char>> = if wasm {
        seq!["--release"@, "--target"@, "wasm32v1-none"@]
    } else {
        Seq::empty()
    };
    let p3: Seq<Seq<char>> = match args.package {
        Some(p) => seq!["--package"@, p@],
        None => if wasm {
            contract_package_args()
        } else {
            seq!["--workspace"@]
        },
    };
    let p4: Seq<Seq<char>> = if args.release && !wasm {
        seq!["--release"@]
    } else {
        Seq::empty()
    };
    let p5: Seq<Seq<char>> = if args.all_targets {
        seq!["--all-targets"@]
    } else {
        Seq::empty()
    };
    let head = seq!["build"@] + p2 + p3 + p4;
    assert(t =~= head + p5);
    assert(t[0] == "build"@);
    let n3 = (1 + p2.len() + p3.len()) as int;
    if wasm {
        assert(t[1] == "--release"@);
        assert(t[2] == "--target"@ && t[3] == "wasm32v1-none"@);
    } else if args.release {
        assert(t[n3] == "--release"@);
    }
    if let Some(p) = args.package {
        let k = (1 + p2.len()) as int;
        assert(t[k] == "--package"@ && t[k + 1] == p@);
    } else if !wasm {
        assert(t[1] == "--workspace"@);
    }
    if args.all_targets {
        assert(t[head.len() as int] == "--all-targets"@);
    }
    if !args.release && !wasm && (args.package matches Some(p) ==> p@ != "--release"@) {
        reveal_strlit("build");
        reveal_strlit("--release");
        reveal_strlit("--package");
        reveal_strlit("--workspace");
        reveal_strlit("--all-targets");
        assert("--package"@[2] != "--release"@[2]);
        assert forall|i: int| 0 <= i < t.len() implies t[i] != "--release"@ by {
            if i == 0 {
                assert(t[i].len() != "--release"@.len());
            } else if args.package is Some && i == 1 {
                assert(t[i][2] != "--release"@[2]);
            } else if args.package is None && i == 1 {
                assert(t[i].len() != "--release"@.len());
            } else if args.package is Some && i == 2 {
            } else {
                assert(t[i].len() != "--release"@.len());
            }
        }
    }
}

/// The arguments that `build` passes to cargo.
pub fn cargo_build_args(args: &BuildArgs) -> (v: Vec<String>)
    ensures
        arg_texts(v@) == build_arg_texts(*args),
        (args.release || args.wasm || args.check_size) ==> arg_texts(v@).contains("--release"@),
        args.package matches Some(p) ==> exists|i: int|
            0 <= i < v@.len() - 1 && #[trigger] arg_texts(v@)[i] == "--package"@ && arg_texts(
                v@,
            )[i + 1] == p@,
{
    let wasm = args.wasm || args.check_size;
    let mut v: Vec<String> = Vec::new();
    push_arg(&mut v, "build");
    let ghost a = arg_texts(v@);
    if wasm {
        push_arg(&mut v, "--release");
        push_arg(&mut v, "--target");
        push_arg(&mut v, "wasm32v1-none");
    }
    let ghost b = arg_texts(v@);
    match &args.package {
        Some(p) => {
            push_arg(&mut v, "--package");
            push_string(&mut v, p);
        },
        None => {
            if wasm {
                push_arg(&mut v, "--package");
                push_arg(&mut v, "soroban-forge-escrow");
                push_arg(&mut v, "--package");
                push_arg(&mut v, "soroban-forge-vesting");
                push_arg(&mut v, "--package");
                push_arg(&mut v, "soroban-forge-multi-sig-wallet");
                push_arg(&mut v, "--package");
                push_arg(&mut v, "soroban-forge-dao-governance");
                push_arg(&mut v, "--package");
                push_arg(&mut v, "soroban-forge-subscription-payments");
                push_arg(&mut v, "--package");
                push_arg(&mut v, "soroban-forge-marketplace-royalties");
            } else {
                push_arg(&mut v, "--workspace");
            }
        },
    }
    let ghost c = arg_texts(v@);
    if args.release && !wasm {
        push_arg(&mut v, "--release");
    }
    let ghost d = arg_texts(v@);
    if args.all_targets {
        push_arg(&mut v, "--all-targets");
    }
    proof {
        let w = args.wasm || args.check_size;
        let p1 = seq!["build"@];
        let p2: Seq<Seq<char>> = if w {
            seq!["--release"@, "--target"@, "wasm32v1-none"@]
        } else {
            Seq::empty()
        };
        let p3: Seq<Seq<char>> = match &args.package {
            Some(p) => seq!["--package"@, p@],
            None => if w {
                contract_package_args()
            } else {
                seq!["--workspace"@]
            },
        };
        let p4: Seq<Seq<char>> = if args.release && !w {
            seq!["--release"@]
        } else {
            Seq::empty()
        };
        let p5: Seq<Seq<char>> = if args.all_targets {
            seq!["--all-targets"@]
        } else {
            Seq::empty()
        };
        assert(a =~= p1);
        assert(b =~= p1 + p2);
        assert(c =~= p1 + p2 + p3);
        assert(d =~= p1 + p2 + p3 + p4);
        assert(arg_texts(v@) =~= p1 + p2 + p3 + p4 + p5);
        lemma_build_args_flags(*args);
    }
    v
}

/// The arguments that `lint` passes to cargo.
pub fn cargo_lint_args(args: &LintArgs) -> (v: Vec<String>)
    ensures
        arg_texts(v@) == seq!["clippy"@, "--workspace"@, "--all-targets"@] + (if args.fix {
            seq!["--fix"@]
        } else {
            Seq::empty()
        }) + seq!["--"@, "-D"@, "warnings"@],
{
    let mut v: Vec<String> = Vec::new();
    push_arg(&mut v, "clippy");
    push_arg(&mut v, "--workspace");
    push_arg(&mut v, "--all-targets");
    let ghost a = arg_texts(v@);
    if args.fix {
        push_arg(&mut v, "--fix");
    }
    let ghost b = arg_texts(v@);
    push_arg(&mut v, "--");
    push_arg(&mut v, "-D");
    push_arg(&mut v, "warnings");
    proof {
        let f: Seq<Seq<char>> = if args.fix {
            seq!["--fix"@]
        } else {
            Seq::empty()
        };
        assert(a =~= seq!["clippy"@, "--workspace"@, "--all-targets"@]);
        assert(b =~= seq!["clippy"@, "--workspace"@, "--all-targets"@] + f);
        assert(arg_texts(v@) =~= seq!["clippy"@, "--workspace"@, "--all-targets"@] + f + seq![
            "--"@,
            "-D"@,
            "warnings"@,
        ]);
    }
    v
}

/// The arguments that `test` passes to cargo.
pub fn cargo_test_args(args: &TestArgs) -> (v: Vec<String>)
    ensures
        arg_texts(v@) == match args.package {
            Some(p) => seq!["test"@, "--package"@, p@],
            None => seq!["test"@, "--workspace"@],
        },
{
    let mut v: Vec<String> = Vec::new();
    push_arg(&mut v, "test");
    match &args.package {
        Some(p) => {
            push_arg(&mut v, "--package");
            push_string(&mut v, p);
        },
        None => {
            push_arg(&mut v, "--workspace");
        },
    }
    proof {
        assert(arg_texts(v@) =~= match &args.package {
            Some(p) => seq!["test"@, "--package"@, p@],
            None => seq!["test"@, "--workspace"@],
        });
    }
    v
}

/// The arguments that `deploy` passes to `stellar`.
pub fn stellar_deploy_args(args: &DeployArgs) -> (v: Vec<String>)
    ensures
        arg_texts(v@) == seq!["contract"@, "deploy"@, "--wasm"@, args.wasm@] + (match args.source {
            Some(s) => seq!["--source-account"@, s@],
            None => Seq::empty(),
        }) + seq!["--network"@, args.network@],
{
    let mut v: Vec<String> = Vec::new();
    push_arg(&mut v, "contract");
    push_arg(&mut v, "deploy");
    push_arg(&mut v, "--wasm");
    push_string(&mut v, &args.wasm);
    let ghost a = arg_texts(v@);
    match &args.source {
        Some(s) => {
            push_arg(&mut v, "--source-account");
            push_string(&mut v, s);
        },
        None => {},
    }
    let ghost b = arg_texts(v@);
    push_arg(&mut v, "--network");
    push_string(&mut v, &args.network);
    proof {
        let m: Seq<Seq<char>> = match &args.source {
            Some(s) => seq!["--source-account"@, s@],
            None => Seq::empty(),
        };
        assert(a =~= seq!["contract"@, "deploy"@, "--wasm"@, args.wasm@]);
        assert(b =~= seq!["contract"@, "deploy"@, "--wasm"@, args.wasm@] + m);
        assert(arg_texts(v@) =~= seq!["contract"@, "deploy"@, "--wasm"@, args.wasm@] + m + seq![
            "--network"@,
            args.network@,
        ]);
    }
    v
}

/// The file stem of a package's WASM artifact: hyphens become
/// underscores (`soroban-forge-escrow` -> `soroban_forge_escrow`).
pub fn wasm_stem(package: &str) -> (r: String)
    ensures
        r@ == replace_char(package@, '-', '_'),
{
    replaced(package, '-', '_')
}

/// A size in bytes as whole kibibytes and hundredths of one (floored).
pub fn kib_parts(size_bytes: u64) -> (r: (u64, u64))
    ensures
        r.0 == size_bytes / 1024,
        r.1 == (size_bytes % 1024) * 100 / 1024,
        r.1 < 100,
{
    let rem = size_bytes % 1024;
    assert(rem * 100 < 102400) by (nonlinear_arith)
        requires
            rem < 1024,
    ;
    (size_bytes / 1024, rem * 100 / 1024)
}

/// A built WASM artifact: its file name and size.
#[derive(Clone, Debug)]
pub struct WasmArtifact {
    pub name: String,
    pub size_bytes: u64,
}

/// The artifacts of `artifacts` over the size budget, in order.
pub open spec fn oversized(artifacts: Seq<WasmArtifact>) -> Seq<WasmArtifact>
    decreases artifacts.len(),
{
    if artifacts.len() == 0 {
        Seq::empty()
    } else if artifacts.last().size_bytes > SIZE_BUDGET_BYTES {
        oversized(artifacts.drop_last()).push(artifacts.last())
    } else {
        oversized(artifacts.drop_last())
    }
}

/// The names of the artifacts over the size budget, in order.
pub fn oversized_names(artifacts: &Vec<WasmArtifact>) -> (v: Vec<String>)
    ensures
        arg_texts(v@) == oversized(artifacts@).map_values(|a: WasmArtifact| a.name@),
{
    let mut v: Vec<String> = Vec::new();
    let mut i: usize = 0;
    while i < artifacts.len()
        invariant
            i <= artifacts@.len(),
            arg_texts(v@) == oversized(artifacts@.subrange(0, i as int)).map_values(
                |a: WasmArtifact| a.name@,
            ),
        decreases artifacts@.len() - i,
    {
        proof {
            assert(artifacts@.subrange(0, i + 1).drop_last() =~= artifacts@.subrange(0, i as int));
        }
        if !within_size_budget(artifacts[i].size_bytes) {
            push_string(&mut v, &artifacts[i].name);
        }
        proof {
            let pre = oversized(artifacts@.subrange(0, i as int));
            let nxt = oversized(artifacts@.subrange(0, i + 1));
            assert(arg_texts(v@) =~= nxt.map_values(|a: WasmArtifact| a.name@));
        }
        i += 1;
    }
    proof {
        assert(artifacts@.subrange(0, artifacts@.len() as int) =~= artifacts@);
    }
    v
}


/// The order of names: lexicographic by code point, which is the byte
/// order in which `String`'s `Ord` sorts UTF-8 text.
pub open spec fn text_le(a: Seq<char>, b: Seq<char>) -> bool
    decreases a.len(),
{
    if a.len() == 0 {
        true
    } else if b.len() == 0 {
        false
    } else if a[0] != b[0] {
        (a[0] as int) < (b[0] as int)
    } else {
        text_le(a.drop_first(), b.drop_first())
    }
}

/// `text_le` is reflexive and total: of two names one comes first.
pub proof fn lemma_text_le_total(a: Seq<char>, b: Seq<char>)
    ensures
        text_le(a, a),
        text_le(a, b) || text_le(b, a),
    decreases a.len(),
{
    if a.len() > 0 {
        lemma_text_le_total(a.drop_first(), a.drop_first());
        if b.len() > 0 {
            lemma_text_le_total(a.drop_first(), b.drop_first());
            if a[0] != b[0] {
                assert((a[0] as int) != (b[0] as int));
            }
        }
    }
}

/// `text_le` is antisymmetric: names that each come first are equal.
pub proof fn lemma_text_le_antisymmetric(a: Seq<char>, b: Seq<char>)
    requires
        text_le(a, b),
        text_le(b, a),
    ensures
        a == b,
    decreases a.len(),
{
    if a.len() == 0 {
        assert(b.len() == 0);
        assert(a =~= b);
    } else {
        assert(b.len() > 0);
        assert(a[0] == b[0]);
        lemma_text_le_antisymmetric(a.drop_first(), b.drop_first());
        assert(a =~= seq![a[0]] + a.drop_first());
        assert(b =~= seq![b[0]] + b.drop_first());
    }
}

/// `text_le` is transitive.
pub proof fn lemma_text_le_transitive(a: Seq<char>, b: Seq<char>, c: Seq<char>)
    requires
        text_le(a, b),
        text_le(b, c),
    ensures
        text_le(a, c),
    decreases a.len(),
{
    if a.len() > 0 && b.len() > 0 && c.len() > 0 && a[0] == b[0] && b[0] == c[0] {
        lemma_text_le_transitive(a.drop_first(), b.drop_first(), c.drop_first());
    }
}

/// Whether `a` comes no later than `b` in name order.
fn text_le_exec(a: &Vec<char>, b: &Vec<char>) -> (r: bool)
    ensures
        r == text_le(a@, b@),
{
    let mut i: usize = 0;
    proof {
        assert(a@.subrange(0, a@.len() as int) =~= a@);
        assert(b@.subrange(0, b@.len() as int) =~= b@);
    }
    while i < a.len() && i < b.len()
        invariant
            i <= a@.len(),
            i <= b@.len(),
            text_le(a@, b@) == text_le(
                a@.subrange(i as int, a@.len() as int),
                b@.subrange(i as int, b@.len() as int),
            ),
        decreases a@.len() - i,
    {
        let x = a[i];
        let y = b[i];
        proof {
            let sa = a@.subrange(i as int, a@.len() as int);
            let sb = b@.subrange(i as int, b@.len() as int);
            assert(sa[0] == x && sb[0] == y);
            assert(sa.drop_first() =~= a@.subrange(i + 1, a@.len() as int));
            assert(sb.drop_first() =~= b@.subrange(i + 1, b@.len() as int));
        }
        if x != y {
            return x < y;
        }
        i += 1;
    }
    i == a.len()
}


/// Why no artifact list could be produced.
#[derive(Clone, Copy, Debug, PartialEq, Eq, Structural)]
pub enum ArtifactError {
    /// No `.wasm` file of the selected package was found.
    NoneFound,
}

/// The index of the last `.` in `s`, or `-1` when there is none.
pub open spec fn last_dot(s: Seq<char>) -> int
    decreases s.len(),
{
    if s.len() == 0 {
        -1
    } else if s.last() == '.' {
        s.len() - 1
    } else {
        last_dot(s.drop_last())
    }
}

/// Whether a file name has an extension in `Path`'s sense: a last `.`
/// that does not start the name, and the name is not `..`.
pub open spec fn has_extension(name: Seq<char>) -> bool {
    last_dot(name) > 0 && name != seq!['.', '.']
}

/// The extension of a file name, as `Path::extension` reads it.
pub open spec fn file_extension(name: Seq<char>) -> Option<Seq<char>> {
    if has_extension(name) {
        Some(name.subrange(last_dot(name) + 1, name.len() as int))
    } else {
        None
    }
}

/// The stem of a file name, as `Path::file_stem` reads it.
pub open spec fn file_stem(name: Seq<char>) -> Seq<char> {
    if has_extension(name) {
        name.subrange(0, last_dot(name))
    } else {
        name
    }
}

/// Whether the size check looks at the file `name`: a `.wasm` file, and,
/// when a package is named, the one whose stem is the package's.
pub open spec fn keeps_artifact(name: Seq<char>, package: Option<Seq<char>>) -> bool {
    &&& file_extension(name) == Some(seq!['w', 'a', 's', 'm'])
    &&& match package {
        Some(p) => file_stem(name) == replace_char(p, '-', '_'),
        None => true,
    }
}

/// The entries the size check looks at, in directory order.
pub open spec fn kept_artifacts(s: Seq<WasmArtifact>, package: Option<Seq<char>>) -> Seq<
    WasmArtifact,
>
    decreases s.len(),
{
    if s.len() == 0 {
        Seq::empty()
    } else if keeps_artifact(s.last().name@, package) {
        kept_artifacts(s.drop_last(), package).push(s.last())
    } else {
        kept_artifacts(s.drop_last(), package)
    }
}

/// Whether artifacts are in name order.
pub open spec fn sorted_by_name(s: Seq<WasmArtifact>) -> bool {
    forall|i: int, j: int| 0 <= i < j < s.len() ==> text_le(s[i].name@, s[j].name@)
}

/// The text of an optional package name.
pub open spec fn package_text(package: Option<&str>) -> Option<Seq<char>> {
    match package {
        Some(p) => Some(p@),
        None => None,
    }
}

fn last_dot_exec(cs: &Vec<char>) -> (r: Option<usize>)
    ensures
        match r {
            Some(i) => i == last_dot(cs@) && i < cs@.len(),
            None => last_dot(cs@) == -1,
        },
{
    let mut k: usize = cs.len();
    proof {
        assert(cs@.subrange(0, k as int) =~= cs@);
    }
    while k > 0
        invariant
            k <= cs@.len(),
            last_dot(cs@) == last_dot(cs@.subrange(0, k as int)),
        decreases k,
    {
        proof {
            assert(cs@.subrange(0, k as int).drop_last() =~= cs@.subrange(0, k - 1));
        }
        if cs[k - 1] == '.' {
            return Some(k - 1);
        }
        k -= 1;
    }
    None
}

/// Whether the first `d` characters of `cs` are exactly `e`.
fn prefix_is(cs: &Vec<char>, d: usize, e: &Vec<char>) -> (r: bool)
    requires
        d <= cs@.len(),
    ensures
        r == (cs@.subrange(0, d as int) == e@),
{
    if e.len() != d {
        return false;
    }
    let mut i: usize = 0;
    while i < d
        invariant
            i <= d == e@.len() <= cs@.len(),
            forall|j: int| 0 <= j < i ==> cs@[j] == e@[j],
        decreases d - i,
    {
        if cs[i] != e[i] {
            proof {
                assert(cs@.subrange(0, d as int)[i as int] != e@[i as int]);
            }
            return false;
        }
        i += 1;
    }
    proof {
        assert(cs@.subrange(0, d as int) =~= e@);
    }
    true
}

fn keeps_artifact_exec(name: &String, package: Option<&str>, expected: &Option<Vec<char>>) -> (r:
    bool)
    requires
        match package {
            Some(p) => expected matches Some(e) && e@ == replace_char(p@, '-', '_'),
            None => expected is None,
        },
    ensures
        r == keeps_artifact(name@, package_text(package)),
{
    let cs = chars_of(name.as_str());
    let is_dotdot = cs.len() == 2 && cs[0] == '.' && cs[1] == '.';
    proof {
        if is_dotdot {
            assert(cs@ =~= seq!['.', '.']);
        }
        if cs@ == seq!['.', '.'] {
            assert(cs@.len() == 2 && cs@[0] == '.' && cs@[1] == '.');
        }
    }
    let d = match last_dot_exec(&cs) {
        None => return false,
        Some(d) => d,
    };
    if d == 0 || is_dotdot {
        return false;
    }
    let n = cs.len();
    let ext_ok = n - d == 5 && cs[d + 1] == 'w' && cs[d + 2] == 'a' && cs[d + 3] == 's' && cs[d
        + 4] == 'm';
    proof {
        let ext = cs@.subrange(d + 1, n as int);
        if ext_ok {
            assert(ext =~= seq!['w', 'a', 's', 'm']);
        }
        if ext == seq!['w', 'a', 's', 'm'] {
            assert(ext.len() == 4 && ext[0] == 'w' && ext[1] == 'a' && ext[2] == 's' && ext[3]
                == 'm');
        }
    }
    if !ext_ok {
        return false;
    }
    match expected {
        None => true,
        Some(e) => prefix_is(&cs, d, e),
    }
}


/// The first position in `out` whose name comes after `name`: inserting
/// there keeps `out` in name order, after any equal names.
fn insertion_point(out: &Vec<WasmArtifact>, name: &String) -> (k: usize)
    ensures
        k <= out@.len(),
        forall|j: int| 0 <= j < k ==> text_le(#[trigger] out@[j].name@, name@),
        k < out@.len() ==> !text_le(out@[k as int].name@, name@),
{
    let key = chars_of(name.as_str());
    let mut k: usize = 0;
    while k < out.len()
        invariant
            k <= out@.len(),
            key@ == name@,
            forall|j: int| 0 <= j < k ==> text_le(#[trigger] out@[j].name@, name@),
        decreases out@.len() - k,
    {
        let other = chars_of(out[k].name.as_str());
        if !text_le_exec(&other, &key) {
            return k;
        }
        k += 1;
    }
    k
}

/// Inserting `e` at its insertion point keeps a name-ordered list ordered.
proof fn lemma_insert_sorted(out: Seq<WasmArtifact>, k: int, e: WasmArtifact)
    requires
        sorted_by_name(out),
        0 <= k <= out.len(),
        forall|j: int| 0 <= j < k ==> text_le(#[trigger] out[j].name@, e.name@),
        k < out.len() ==> !text_le(out[k].name@, e.name@),
    ensures
        sorted_by_name(out.insert(k, e)),
{
    let n = out.insert(k, e);
    if k < out.len() {
        lemma_text_le_total(out[k].name@, e.name@);
    }
    assert forall|a: int, b: int| 0 <= a < b < n.len() implies text_le(n[a].name@, n[b].name@) by {
        if b < k {
        } else if b == k {
        } else if a < k {
            assert(n[b] == out[b - 1]);
        } else if a == k {
            assert(n[b] == out[b - 1]);
            if b - 1 > k {
                lemma_text_le_transitive(e.name@, out[k].name@, out[b - 1].name@);
            }
        } else {
            assert(n[a] == out[a - 1]);
            assert(n[b] == out[b - 1]);
        }
    }
}

/// The artifacts a size check reports: among the entries of the output
/// directory (file name and size), the `.wasm` files of the selected
/// package (of every package when none is named), in name order;
/// `NoneFound` when there is none.
pub fn select_wasm_artifacts(entries: Vec<WasmArtifact>, package: Option<&str>) -> (r: Result<
    Vec<WasmArtifact>,
    ArtifactError,
>)
    ensures
        kept_artifacts(entries@, package_text(package)).len() == 0 ==> r == Err::<
            Vec<WasmArtifact>,
            ArtifactError,
        >(ArtifactError::NoneFound),
        kept_artifacts(entries@, package_text(package)).len() > 0 ==> (r matches Ok(v)
            && sorted_by_name(v@) && v@.to_multiset() == kept_artifacts(
            entries@,
            package_text(package),
        ).to_multiset()),
{
    let expected: Option<Vec<char>> = match package {
        Some(p) => {
            let st = wasm_stem(p);
            Some(chars_of(st.as_str()))
        },
        None => None,
    };
    let ghost pkg = package_text(package);
    let ghost all = entries@;
    let mut rest = entries;
    let mut out: Vec<WasmArtifact> = Vec::new();
    let mut i: usize = 0;
    let n = rest.len();
    proof {
        assert(all.len() == n);
        assert(all.subrange(0, 0) =~= Seq::<WasmArtifact>::empty());
        assert(rest@ =~= all.subrange(0, all.len() as int));
    }
    while rest.len() > 0
        invariant
            i + rest@.len() == all.len(),
            all.len() <= usize::MAX,
            rest@ == all.subrange(i as int, all.len() as int),
            pkg == package_text(package),
            match package {
                Some(p) => expected matches Some(e) && e@ == replace_char(p@, '-', '_'),
                None => expected is None,
            },
            sorted_by_name(out@),
            out@.to_multiset() == kept_artifacts(all.subrange(0, i as int), pkg).to_multiset(),
        decreases rest@.len(),
    {
        let e = rest.remove(0);
        proof {
            assert(all.subrange(0, i + 1).drop_last() =~= all.subrange(0, i as int));
            assert(all.subrange(0, i + 1).last() == e);
            assert(rest@ =~= all.subrange(i + 1, all.len() as int));
        }
        let ghost before = out@;
        let ghost pre = kept_artifacts(all.subrange(0, i as int), pkg);
        if keeps_artifact_exec(&e.name, package, &expected) {
            let k = insertion_point(&out, &e.name);
            proof {
                lemma_insert_sorted(out@, k as int, e);
            }
            out.insert(k, e);
            proof {
                assert(kept_artifacts(all.subrange(0, i + 1), pkg) == pre.push(e));
                assert(out@ == before.insert(k as int, e));
                vstd::seq_lib::to_multiset_insert(before, k as int, e);
                vstd::seq_lib::to_multiset_build(pre, e);
            }
        } else {
            proof {
                assert(kept_artifacts(all.subrange(0, i + 1), pkg) == pre);
            }
        }
        i += 1;
    }
    proof {
        assert(all.subrange(0, i as int) =~= all);
        let kept = kept_artifacts(all, pkg);
        vstd::seq_lib::to_multiset_len(out@);
        vstd::seq_lib::to_multiset_len(kept);
    }
    if out.len() == 0 {
        Err(ArtifactError::NoneFound)
    } else {
        Ok(out)
    }
}


/// Whether the compiler's target library directory holds the core library
/// (an entry whose name starts with `libcore-`), which tells that the WASM
/// target is installed.
pub fn has_core_library(entries: &Vec<String>) -> (b: bool)
    ensures
        b == exists|i: int| 0 <= i < entries@.len() && starts_with(
            #[trigger] entries@[i]@,
            "libcore-"@,
        ),
{
    let prefix = chars_of("libcore-");
    let mut i: usize = 0;
    while i < entries.len()
        invariant
            i <= entries@.len(),
            prefix@ == "libcore-"@,
            forall|j: int| 0 <= j < i ==> !starts_with(#[trigger] entries@[j]@, "libcore-"@),
        decreases entries@.len() - i,
    {
        let name = chars_of(entries[i].as_str());
        if has_prefix(&name, &prefix) {
            return true;
        }
        i += 1;
    }
    false
}

/// `a` followed by `b`.
fn joined(a: &str, b: &str) -> (r: String)
    ensures
        r@ == a@ + b@,
{
    let mut out = String::new();
    let cs = chars_of(a);
    let ds = chars_of(b);
    let mut i: usize = 0;
    while i < cs.len()
        invariant
            i <= cs@.len(),
            cs@ == a@,
            out@ == cs@.subrange(0, i as int),
        decreases cs@.len() - i,
    {
        string_push(&mut out, cs[i]);
        proof {
            assert(cs@.subrange(0, i + 1) =~= cs@.subrange(0, i as int).push(cs@[i as int]));
        }
        i += 1;
    }
    let mut j: usize = 0;
    while j < ds.len()
        invariant
            j <= ds@.len(),
            ds@ == b@,
            cs@ == a@,
            out@ == a@ + ds@.subrange(0, j as int),
        decreases ds@.len() - j,
    {
        string_push(&mut out, ds[j]);
        proof {
            assert(ds@.subrange(0, j + 1) =~= ds@.subrange(0, j as int).push(ds@[j as int]));
            assert(a@ + ds@.subrange(0, j + 1) =~= (a@ + ds@.subrange(0, j as int)).push(
                ds@[j as int],
            ));
        }
        j += 1;
    }
    proof {
        assert(cs@.subrange(0, cs@.len() as int) =~= a@);
        assert(ds@.subrange(0, ds@.len() as int) =~= b@);
    }
    out
}

/// Where `new` scaffolds a contract named `kebab`: the given path; else,
/// inside a workspace (a `crates` directory exists), `crates/<kebab>`;
/// else `<kebab>` itself. An absolute `kebab` replaces the `crates` base,
/// as `Path::join` does.
pub fn new_target_dir(kebab: &str, path: Option<String>, crates_is_dir: bool) -> (r: String)
    ensures
        r@ == match path {
            Some(p) => p@,
            None => if crates_is_dir && !starts_with(kebab@, "/"@) {
                "crates/"@ + kebab@
            } else {
                kebab@
            },
        },
{
    match path {
        Some(p) => p,
        None => {
            let cs = chars_of(kebab);
            let slash = chars_of("/");
            if crates_is_dir && !has_prefix(&cs, &slash) {
                joined("crates/", kebab)
            } else {
                proof {
                    reveal_strlit("");
                    assert(kebab@ + ""@ =~= kebab@);
                }
                joined(kebab, "")
            }
        },
    }
}

/// `s` with every occurrence of the non-empty `pat` replaced by `to`,
/// matches taken left to right without overlap, as `str::replace` does.
pub open spec fn replace_all(s: Seq<char>, pat: Seq<char>, to: Seq<char>) -> Seq<char>
    decreases s.len(),
{
    if s.len() == 0 || pat.len() == 0 {
        s
    } else if pat.len() <= s.len() && s.subrange(0, pat.len() as int) == pat {
        to + replace_all(s.subrange(pat.len() as int, s.len() as int), pat, to)
    } else {
        seq![s[0]] + replace_all(s.drop_first(), pat, to)
    }
}

/// Whether `p` occurs in `cs` at position `i`.
fn occurs_at(cs: &Vec<char>, i: usize, p: &Vec<char>) -> (r: bool)
    requires
        i <= cs@.len(),
    ensures
        r == (p@.len() <= cs@.len() - i && cs@.subrange(i as int, i + p@.len()) == p@),
{
    if p.len() > cs.len() - i {
        return false;
    }
    let n = cs.len();
    let mut k: usize = 0;
    while k < p.len()
        invariant
            n == cs@.len(),
            i <= cs@.len(),
            k <= p@.len() <= cs@.len() - i,
            forall|j: int| 0 <= j < k ==> cs@[i + j] == p@[j],
        decreases p@.len() - k,
    {
        if cs[i + k] != p[k] {
            proof {
                assert(cs@.subrange(i as int, i + p@.len())[k as int] != p@[k as int]);
            }
            return false;
        }
        k += 1;
    }
    proof {
        assert(cs@.subrange(i as int, i + p@.len()) =~= p@);
    }
    true
}

/// A scaffolding template with every `<CONTRACT_NAME>` replaced by `name`.
pub fn render_template(template: &str, name: &str) -> (r: String)
    ensures
        r@ == replace_all(template@, "<CONTRACT_NAME>"@, name@),
{
    proof {
        reveal_strlit("<CONTRACT_NAME>");
    }
    let cs = chars_of(template);
    let pat = chars_of("<CONTRACT_NAME>");
    let to = chars_of(name);
    let ghost total = replace_all(cs@, pat@, to@);
    let n = cs.len();
    let mut out = String::new();
    let mut i: usize = 0;
    proof {
        assert(cs@.subrange(0, n as int) =~= cs@);
    }
    while i < n
        invariant
            i <= n == cs@.len(),
            pat@ == "<CONTRACT_NAME>"@,
            pat@.len() > 0,
            to@ == name@,
            total == replace_all(cs@, pat@, to@),
            out@ + replace_all(cs@.subrange(i as int, n as int), pat@, to@) == total,
        decreases n - i,
    {
        let ghost rest = cs@.subrange(i as int, n as int);
        if occurs_at(&cs, i, &pat) {
            let m = pat.len();
            proof {
                assert(rest.subrange(0, m as int) =~= cs@.subrange(i as int, i + m));
                assert(rest.subrange(m as int, rest.len() as int) =~= cs@.subrange(
                    i + m,
                    n as int,
                ));
                assert(replace_all(rest, pat@, to@) == to@ + replace_all(
                    cs@.subrange(i + m, n as int),
                    pat@,
                    to@,
                ));
            }
            let mut k: usize = 0;
            let ghost start = out@;
            while k < to.len()
                invariant
                    k <= to@.len(),
                    out@ == start + to@.subrange(0, k as int),
                decreases to@.len() - k,
            {
                string_push(&mut out, to[k]);
                proof {
                    assert(start + to@.subrange(0, k + 1) =~= (start + to@.subrange(
                        0,
                        k as int,
                    )).push(to@[k as int]));
                }
                k += 1;
            }
            proof {
                assert(to@.subrange(0, to@.len() as int) =~= to@);
                assert(start + (to@ + replace_all(cs@.subrange(i + m, n as int), pat@, to@))
                    =~= (start + to@) + replace_all(cs@.subrange(i + m, n as int), pat@, to@));
            }
            i += m;
        } else {
            let c = cs[i];
            let ghost start = out@;
            string_push(&mut out, c);
            proof {
                assert(rest.drop_first() =~= cs@.subrange(i + 1, n as int));
                assert(rest[0] == c);
                assert(!(pat@.len() <= rest.len() && rest.subrange(0, pat@.len() as int)
                    == pat@)) by {
                    if pat@.len() <= rest.len() {
                        assert(rest.subrange(0, pat@.len() as int) =~= cs@.subrange(
                            i as int,
                            i + pat@.len(),
                        ));
                    }
                }
                assert(replace_all(rest, pat@, to@) == seq![c] + replace_all(
                    cs@.subrange(i + 1, n as int),
                    pat@,
                    to@,
                ));
                assert(start + (seq![c] + replace_all(cs@.subrange(i + 1, n as int), pat@, to@))
                    =~= start.push(c) + replace_all(cs@.subrange(i + 1, n as int), pat@, to@));
            }
            i += 1;
        }
    }
    proof {
        assert(cs@.subrange(n as int, n as int) =~= Seq::<char>::empty());
        assert(out@ + Seq::<char>::empty() =~= out@);
    }
    out
}


/// The target that contracts are built for.
pub fn wasm_target() -> (t: &'static str)
    ensures
        t@ == "wasm32v1-none"@,
{
    "wasm32v1-none"
}

/// The arguments that ask the compiler where the WASM target's libraries
/// are installed.
pub fn target_libdir_args() -> (v: Vec<String>)
    ensures
        arg_texts(v@) == seq!["--print"@, "target-libdir"@, "--target"@, "wasm32v1-none"@],
{
    let mut v: Vec<String> = Vec::new();
    push_arg(&mut v, "--print");
    push_arg(&mut v, "target-libdir");
    push_arg(&mut v, "--target");
    push_arg(&mut v, "wasm32v1-none");
    proof {
        assert(arg_texts(v@) =~= seq!["--print"@, "target-libdir"@, "--target"@, "wasm32v1-none"@]);
    }
    v
}

} // verus!

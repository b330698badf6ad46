//! What source discovery decides: whether a directory entry is skipped, which language
//! an extension names, the content hash and its label, the record of one file, the order
//! of the files found, and when a long walk checks whether it was cancelled.

use vstd::prelude::*;
use crate::index_state::SourceFile;
use crate::sort::{sort_by_key, SortKey};
use crate::text::{lemma_lex_lt_irreflexive, lemma_lex_lt_transitive, lex_lt, str_eq, str_lt};

verus! {

/// The directory entries that discovery skips.
pub open spec fn ignored_name(name: Seq<char>) -> bool {
    name == ".git"@ || name == ".athanor"@ || name == "target"@ || name == "node_modules"@ || name == ".idea"@
        || name == ".vscode"@
}

/// Discovery skips the version-control, tool and build directories `.git`, `.athanor`,
/// `target`, `node_modules`, `.idea` and `.vscode`, and nothing else.
pub proof fn lemma_ignored_names(name: Seq<char>)
    ensures
        ignored_name(name) <==> (name == ".git"@ || name == ".athanor"@ || name == "target"@
            || name == "node_modules"@ || name == ".idea"@ || name == ".vscode"@),
        !ignored_name("src"@),
        ignored_name(".git"@) && ignored_name(".athanor"@) && ignored_name("target"@)
            && ignored_name("node_modules"@) && ignored_name(".idea"@) && ignored_name(".vscode"@),
{
    reveal_strlit("src");
    reveal_strlit(".git");
    reveal_strlit(".athanor");
    reveal_strlit("target");
    reveal_strlit("node_modules");
    reveal_strlit(".idea");
    reveal_strlit(".vscode");
    assert("src"@.len() != ".git"@.len());
    assert("src"@.len() != ".athanor"@.len());
    assert("src"@.len() != "target"@.len());
    assert("src"@.len() != "node_modules"@.len());
    assert("src"@.len() != ".idea"@.len());
    assert("src"@.len() != ".vscode"@.len());
}

/// Whether discovery skips the directory entry `file_name`.
pub fn should_ignore(file_name: &str) -> (r: bool)
    ensures
        r == ignored_name(file_name@),
{
    str_eq(file_name, ".git") || str_eq(file_name, ".athanor") || str_eq(file_name, "target")
        || str_eq(file_name, "node_modules") || str_eq(file_name, ".idea") || str_eq(file_name, ".vscode")
}

/// The language an extension names; an extension it does not know names itself.
pub open spec fn extension_language(ext: Seq<char>) -> Seq<char> {
    if ext == "rs"@ { "rust"@ }
    else if ext == "md"@ { "markdown"@ }
    else if ext == "toml"@ { "toml"@ }
    else if ext == "json"@ { "json"@ }
    else if ext == "yaml"@ || ext == "yml"@ { "yaml"@ }
    else if ext == "js"@ || ext == "mjs"@ || ext == "cjs"@ { "javascript"@ }
    else if ext == "jsx"@ { "javascriptreact"@ }
    else if ext == "ts"@ || ext == "mts"@ || ext == "cts"@ { "typescript"@ }
    else if ext == "tsx"@ { "typescriptreact"@ }
    else if ext == "py"@ { "python"@ }
    else if ext == "go"@ { "go"@ }
    else if ext == "php"@ { "php"@ }
    else { ext }
}

/// The languages that extensions name: Rust, Markdown, TOML, JSON, YAML, JavaScript,
/// TypeScript (with their React forms), Python, Go and PHP; an extension outside these
/// names itself.
pub proof fn lemma_extension_languages(other: Seq<char>)
    requires
        other != "rs"@,
        other != "md"@,
        other != "toml"@,
        other != "json"@,
        other != "yaml"@,
        other != "yml"@,
        other != "js"@,
        other != "mjs"@,
        other != "cjs"@,
        other != "jsx"@,
        other != "ts"@,
        other != "mts"@,
        other != "cts"@,
        other != "tsx"@,
        other != "py"@,
        other != "go"@,
        other != "php"@,
    ensures
        extension_language("rs"@) == "rust"@,
        extension_language("md"@) == "markdown"@,
        extension_language("toml"@) == "toml"@,
        extension_language("json"@) == "json"@,
        extension_language("yaml"@) == "yaml"@,
        extension_language("yml"@) == "yaml"@,
        extension_language("js"@) == "javascript"@,
        extension_language("mjs"@) == "javascript"@,
        extension_language("cjs"@) == "javascript"@,
        extension_language("jsx"@) == "javascriptreact"@,
        extension_language("ts"@) == "typescript"@,
        extension_language("mts"@) == "typescript"@,
        extension_language("cts"@) == "typescript"@,
        extension_language("tsx"@) == "typescriptreact"@,
        extension_language("py"@) == "python"@,
        extension_language("go"@) == "go"@,
        extension_language("php"@) == "php"@,
        extension_language(other) == other,
{
    reveal_strlit("cjs");
    reveal_strlit("cts");
    reveal_strlit("go");
    reveal_strlit("javascript");
    reveal_strlit("javascriptreact");
    reveal_strlit("js");
    reveal_strlit("json");
    reveal_strlit("jsx");
    reveal_strlit("markdown");
    reveal_strlit("md");
    reveal_strlit("mjs");
    reveal_strlit("mts");
    reveal_strlit("php");
    reveal_strlit("py");
    reveal_strlit("python");
    reveal_strlit("rs");
    reveal_strlit("rust");
    reveal_strlit("toml");
    reveal_strlit("ts");
    reveal_strlit("tsx");
    reveal_strlit("typescript");
    reveal_strlit("typescriptreact");
    reveal_strlit("yaml");
    reveal_strlit("yml");
    assert("rs"@[0] != "md"@[0]);
    assert("rs"@.len() != "toml"@.len());
    assert("rs"@.len() != "json"@.len());
    assert("rs"@.len() != "yaml"@.len());
    assert("rs"@.len() != "yml"@.len());
    assert("rs"@[0] != "js"@[0]);
    assert("rs"@.len() != "mjs"@.len());
    assert("rs"@.len() != "cjs"@.len());
    assert("rs"@.len() != "jsx"@.len());
    assert("rs"@[0] != "ts"@[0]);
    assert("rs"@.len() != "mts"@.len());
    assert("rs"@.len() != "cts"@.len());
    assert("rs"@.len() != "tsx"@.len());
    assert("rs"@[0] != "py"@[0]);
    assert("rs"@[0] != "go"@[0]);
    assert("rs"@.len() != "php"@.len());
    assert("md"@.len() != "toml"@.len());
    assert("md"@.len() != "json"@.len());
    assert("md"@.len() != "yaml"@.len());
    assert("md"@.len() != "yml"@.len());
    assert("md"@[0] != "js"@[0]);
    assert("md"@.len() != "mjs"@.len());
    assert("md"@.len() != "cjs"@.len());
    assert("md"@.len() != "jsx"@.len());
    assert("md"@[0] != "ts"@[0]);
    assert("md"@.len() != "mts"@.len());
    assert("md"@.len() != "cts"@.len());
    assert("md"@.len() != "tsx"@.len());
    assert("md"@[0] != "py"@[0]);
    assert("md"@[0] != "go"@[0]);
    assert("md"@.len() != "php"@.len());
    assert("toml"@[0] != "json"@[0]);
    assert("toml"@[0] != "yaml"@[0]);
    assert("toml"@.len() != "yml"@.len());
    assert("toml"@.len() != "js"@.len());
    assert("toml"@.len() != "mjs"@.len());
    assert("toml"@.len() != "cjs"@.len());
    assert("toml"@.len() != "jsx"@.len());
    assert("toml"@.len() != "ts"@.len());
    assert("toml"@.len() != "mts"@.len());
    assert("toml"@.len() != "cts"@.len());
    assert("toml"@.len() != "tsx"@.len());
    assert("toml"@.len() != "py"@.len());
    assert("toml"@.len() != "go"@.len());
    assert("toml"@.len() != "php"@.len());
    assert("json"@[0] != "yaml"@[0]);
    assert("json"@.len() != "yml"@.len());
    assert("json"@.len() != "js"@.len());
    assert("json"@.len() != "mjs"@.len());
    assert("json"@.len() != "cjs"@.len());
    assert("json"@.len() != "jsx"@.len());
    assert("json"@.len() != "ts"@.len());
    assert("json"@.len() != "mts"@.len());
    assert("json"@.len() != "cts"@.len());
    assert("json"@.len() != "tsx"@.len());
    assert("json"@.len() != "py"@.len());
    assert("json"@.len() != "go"@.len());
    assert("json"@.len() != "php"@.len());
    assert("yaml"@.len() != "yml"@.len());
    assert("yaml"@.len() != "js"@.len());
    assert("yaml"@.len() != "mjs"@.len());
    assert("yaml"@.len() != "cjs"@.len());
    assert("yaml"@.len() != "jsx"@.len());
    assert("yaml"@.len() != "ts"@.len());
    assert("yaml"@.len() != "mts"@.len());
    assert("yaml"@.len() != "cts"@.len());
    assert("yaml"@.len() != "tsx"@.len());
    assert("yaml"@.len() != "py"@.len());
    assert("yaml"@.len() != "go"@.len());
    assert("yaml"@.len() != "php"@.len());
    assert("yml"@.len() != "js"@.len());
    assert("yml"@[0] != "mjs"@[0]);
    assert("yml"@[0] != "cjs"@[0]);
    assert("yml"@[0] != "jsx"@[0]);
    assert("yml"@.len() != "ts"@.len());
    assert("yml"@[0] != "mts"@[0]);
    assert("yml"@[0] != "cts"@[0]);
    assert("yml"@[0] != "tsx"@[0]);
    assert("yml"@.len() != "py"@.len());
    assert("yml"@.len() != "go"@.len());
    assert("yml"@[0] != "php"@[0]);
    assert("js"@.len() != "mjs"@.len());
    assert("js"@.len() != "cjs"@.len());
    assert("js"@.len() != "jsx"@.len());
    assert("js"@[0] != "ts"@[0]);
    assert("js"@.len() != "mts"@.len());
    assert("js"@.len() != "cts"@.len());
    assert("js"@.len() != "tsx"@.len());
    assert("js"@[0] != "py"@[0]);
    assert("js"@[0] != "go"@[0]);
    assert("js"@.len() != "php"@.len());
    assert("mjs"@[0] != "cjs"@[0]);
    assert("mjs"@[0] != "jsx"@[0]);
    assert("mjs"@.len() != "ts"@.len());
    assert("mjs"@[1] != "mts"@[1]);
    assert("mjs"@[0] != "cts"@[0]);
    assert("mjs"@[0] != "tsx"@[0]);
    assert("mjs"@.len() != "py"@.len());
    assert("mjs"@.len() != "go"@.len());
    assert("mjs"@[0] != "php"@[0]);
    assert("cjs"@[0] != "jsx"@[0]);
    assert("cjs"@.len() != "ts"@.len());
    assert("cjs"@[0] != "mts"@[0]);
    assert("cjs"@[1] != "cts"@[1]);
    assert("cjs"@[0] != "tsx"@[0]);
    assert("cjs"@.len() != "py"@.len());
    assert("cjs"@.len() != "go"@.len());
    assert("cjs"@[0] != "php"@[0]);
    assert("jsx"@.len() != "ts"@.len());
    assert("jsx"@[0] != "mts"@[0]);
    assert("jsx"@[0] != "cts"@[0]);
    assert("jsx"@[0] != "tsx"@[0]);
    assert("jsx"@.len() != "py"@.len());
    assert("jsx"@.len() != "go"@.len());
    assert("jsx"@[0] != "php"@[0]);
    assert("ts"@.len() != "mts"@.len());
    assert("ts"@.len() != "cts"@.len());
    assert("ts"@.len() != "tsx"@.len());
    assert("ts"@[0] != "py"@[0]);
    assert("ts"@[0] != "go"@[0]);
    assert("ts"@.len() != "php"@.len());
    assert("mts"@[0] != "cts"@[0]);
    assert("mts"@[0] != "tsx"@[0]);
    assert("mts"@.len() != "py"@.len());
    assert("mts"@.len() != "go"@.len());
    assert("mts"@[0] != "php"@[0]);
    assert("cts"@[0] != "tsx"@[0]);
    assert("cts"@.len() != "py"@.len());
    assert("cts"@.len() != "go"@.len());
    assert("cts"@[0] != "php"@[0]);
    assert("tsx"@.len() != "py"@.len());
    assert("tsx"@.len() != "go"@.len());
    assert("tsx"@[0] != "php"@[0]);
    assert("py"@[0] != "go"@[0]);
    assert("py"@.len() != "php"@.len());
    assert("go"@.len() != "php"@.len());
}

/// The language hint of a file with the given extension, where it has one.
pub fn language_hint(extension: Option<&str>) -> (r: Option<String>)
    ensures
        match (extension, r) {
            (None, None) => true,
            (Some(ext), Some(lang)) => lang@ == extension_language(ext@),
            _ => false,
        },
{
    let ext = match extension {
        None => {
            return None;
        },
        Some(ext) => ext,
    };
    let lang: &str = if str_eq(ext, "rs") { "rust" }
    else if str_eq(ext, "md") { "markdown" }
    else if str_eq(ext, "toml") { "toml" }
    else if str_eq(ext, "json") { "json" }
    else if str_eq(ext, "yaml") || str_eq(ext, "yml") { "yaml" }
    else if str_eq(ext, "js") || str_eq(ext, "mjs") || str_eq(ext, "cjs") { "javascript" }
    else if str_eq(ext, "jsx") { "javascriptreact" }
    else if str_eq(ext, "ts") || str_eq(ext, "mts") || str_eq(ext, "cts") { "typescript" }
    else if str_eq(ext, "tsx") { "typescriptreact" }
    else if str_eq(ext, "py") { "python" }
    else if str_eq(ext, "go") { "go" }
    else if str_eq(ext, "php") { "php" }
    else { ext };
    Some(String::from_str(lang))
}

/// The 64-bit FNV-1a hash of `bytes`.
pub open spec fn fnv1a64_of(bytes: Seq<u8>) -> u64
    decreases bytes.len(),
{
    if bytes.len() == 0 {
        0xcbf29ce484222325u64
    } else {
        vstd::wrapping::u64_specs::wrapping_mul(fnv1a64_of(bytes.drop_last()) ^ (bytes.last() as u64), 0x100000001b3u64)
    }
}

/// Hashes `bytes` with 64-bit FNV-1a.
pub fn fnv1a64(bytes: &[u8]) -> (r: u64)
    ensures
        r == fnv1a64_of(bytes@),
{
    let mut hash: u64 = 0xcbf29ce484222325u64;
    let mut i: usize = 0;
    while i < bytes.len()
        invariant
            i <= bytes@.len(),
            hash == fnv1a64_of(bytes@.take(i as int)),
        decreases bytes.len() - i,
    {
        assert(bytes@.take(i + 1).drop_last() =~= bytes@.take(i as int));
        hash = hash ^ (bytes[i] as u64);
        hash = hash.wrapping_mul(0x100000001b3u64);
        i = i + 1;
    }
    assert(bytes@.take(i as int) =~= bytes@);
    hash
}

/// The lower-case hexadecimal digit of a value below 16.
pub open spec fn hex_digit(d: nat) -> char {
    if d < 10 { ((d + 48) as u8) as char } else { ((d + 87) as u8) as char }
}

/// The last `width` hexadecimal digits of `n`, zero-padded on the left.
pub open spec fn hex_digits(n: nat, width: nat) -> Seq<char>
    decreases width,
{
    if width == 0 {
        Seq::empty()
    } else {
        hex_digits(n / 16, (width - 1) as nat).push(hex_digit(n % 16))
    }
}

/// The label a content hash is stored under: `fnv1a64:` and sixteen hexadecimal digits.
pub open spec fn hash_label(hash: u64) -> Seq<char> {
    "fnv1a64:"@ + hex_digits(hash as nat, 16)
}

fn hex_char(d: u64) -> (c: char)
    requires
        d < 16,
    ensures
        c == hex_digit(d as nat),
{
    let b = d as u8;
    let c = if b < 10 { (b + 48) as char } else { (b + 87) as char };
    c
}

/// The label of a content hash, as `hash_label` says.
pub fn content_hash_label(hash: u64) -> (r: String)
    ensures
        r@ == hash_label(hash),
{
    let mut digits: Vec<char> = Vec::new();
    let mut n: u64 = hash;
    let mut k: usize = 0;
    while k < 16
        invariant
            k <= 16,
            digits@.len() == k,
            hex_digits(hash as nat, 16) == hex_digits(n as nat, (16 - k) as nat) + digits@.reverse(),
        decreases 16 - k,
    {
        let ghost before = digits@;
        let c = hex_char(n % 16);
        digits.push(c);
        proof {
            assert(hex_digits(n as nat, (16 - k) as nat) == hex_digits((n / 16) as nat, (16 - k - 1) as nat).push(c));
            assert(digits@.reverse() =~= seq![c] + before.reverse());
            assert(hex_digits((n / 16) as nat, (16 - k - 1) as nat).push(c) + before.reverse()
                =~= hex_digits((n / 16) as nat, (16 - k - 1) as nat) + (seq![c] + before.reverse()));
        }
        n = n / 16;
        k = k + 1;
    }
    let mut r = String::from_str("fnv1a64:");
    let mut i: usize = 16;
    let ghost head = r@;
    while i > 0
        invariant
            i <= 16,
            digits@.len() == 16,
            r@ == head + digits@.reverse().take(16 - i),
        decreases i,
    {
        i = i - 1;
        r.append(crate::text::char_string(digits[i]).as_str());
        assert(digits@.reverse().take(16 - i) =~= digits@.reverse().take(16 - i - 1).push(digits@[i as int]));
    }
    assert(digits@.reverse().take(16) =~= digits@.reverse());
    r
}

/// The record of one file found by discovery: its normalized path, the language its
/// extension names, and the label of its content's hash.
pub fn source_file(path: String, extension: Option<&str>, content: &[u8]) -> (r: SourceFile)
    ensures
        r.path@ == path@,
        match (extension, r.language_hint) {
            (None, None) => true,
            (Some(ext), Some(lang)) => lang@ == extension_language(ext@),
            _ => false,
        },
        r.content_hash matches Some(h) && h@ == hash_label(fnv1a64_of(content@)),
{
    let hash = fnv1a64(content);
    SourceFile { path, language_hint: language_hint(extension), content_hash: Some(content_hash_label(hash)) }
}

impl SortKey for SourceFile {
    closed spec fn key_lt(&self, other: &Self) -> bool {
        lex_lt(self.path@, other.path@)
    }

    proof fn lemma_key_lt_transitive(a: &Self, b: &Self, c: &Self) {
        lemma_lex_lt_transitive(a.path@, b.path@, c.path@);
    }

    proof fn lemma_key_lt_irreflexive(a: &Self) {
        lemma_lex_lt_irreflexive(a.path@);
    }

    fn lt(&self, other: &Self) -> (r: bool) {
        str_lt(self.path.as_str(), other.path.as_str())
    }
}

/// The files found, ordered by path.
pub fn order_by_path(files: Vec<SourceFile>) -> (r: Vec<SourceFile>)
    ensures
        r@.to_multiset() == files@.to_multiset(),
        forall|i: int, j: int| 0 <= i < j < r@.len() ==> !lex_lt(#[trigger] r@[j].path@, #[trigger] r@[i].path@),
{
    let r = sort_by_key(files);
    assert forall|i: int, j: int| 0 <= i < j < r@.len() implies !lex_lt(#[trigger] r@[j].path@, #[trigger] r@[i].path@) by {
        assert(!r@[j].key_lt(&r@[i]));
    }
    r
}

/// Counts the steps of a long walk and says when the walk is to check whether it was
/// cancelled: once every `interval` steps.
pub struct DiscoveryPoller {
    interval: usize,
    remaining: usize,
}

impl DiscoveryPoller {
    #[verifier::type_invariant]
    spec fn counts_down(self) -> bool {
        1 <= self.remaining <= self.interval
    }

    /// The number of steps between two checks.
    pub closed spec fn period(self) -> nat {
        self.interval as nat
    }

    /// The steps left until the next check.
    pub closed spec fn left(self) -> nat {
        self.remaining as nat
    }

    /// A poller that checks every `interval` steps (every step where `interval` is zero).
    pub fn new(interval: usize) -> (p: Self)
        ensures
            p.period() == if interval == 0 { 1 } else { interval as nat },
            p.left() == p.period(),
    {
        let interval = if interval == 0 { 1 } else { interval };
        DiscoveryPoller { interval, remaining: interval }
    }

    /// Counts one step; true where the walk is to check now, after which the count starts
    /// over.
    pub fn step(&mut self) -> (check: bool)
        ensures
            check == (old(self).left() == 1),
            final(self).period() == old(self).period(),
            final(self).left() == if check { old(self).period() } else { (old(self).left() - 1) as nat },
            1 <= final(self).left() <= final(self).period(),
    {
        proof {
            use_type_invariant(&*self);
        }
        if self.remaining == 1 {
            self.remaining = self.interval;
            true
        } else {
            self.remaining = self.remaining - 1;
            false
        }
    }
}

/// The steps left until the next check after `k` steps of a fresh poller with period `i`.
pub open spec fn left_after(i: int, k: int) -> int
    recommends
        i >= 1,
        k >= 0,
{
    i - k % i
}

/// A fresh poller with period `i` checks at step `k + 1` exactly when `k + 1` is a
/// multiple of `i`: from `left_after(i, k)` steps left, a step checks exactly then, and
/// leaves `left_after(i, k + 1)`.
pub proof fn lemma_poller_checks_every_period(i: int, k: int)
    requires
        i >= 1,
        k >= 0,
    ensures
        (left_after(i, k) == 1) == ((k + 1) % i == 0),
        (if left_after(i, k) == 1 { i } else { left_after(i, k) - 1 }) == left_after(i, k + 1),
        left_after(i, 0) == i,
{
    let m = k % i;
    let q = k / i;
    vstd::arithmetic::div_mod::lemma_fundamental_div_mod(k, i);
    vstd::arithmetic::div_mod::lemma_mod_bound(k, i);
    if m + 1 == i {
        assert(k + 1 == (q + 1) * i) by (nonlinear_arith)
            requires
                k == i * q + m,
                m + 1 == i;
        vstd::arithmetic::div_mod::lemma_mod_multiples_basic(q + 1, i);
    } else {
        assert(k + 1 == q * i + (m + 1)) by (nonlinear_arith)
            requires
                k == i * q + m;
        vstd::arithmetic::div_mod::lemma_mod_multiples_vanish(q, m + 1, i);
        vstd::arithmetic::div_mod::lemma_small_mod((m + 1) as nat, i as nat);
    }
    vstd::arithmetic::div_mod::lemma_small_mod(0, i as nat);
}

} // verus!

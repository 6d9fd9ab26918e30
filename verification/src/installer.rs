//! The plan of a grammar installation: which commands fetch, patch and
//! compile a grammar, and what is reported along the way. Nothing here runs
//! a command or touches a file; a front end carries the plan out.

use vstd::prelude::*;
use vstd::string::*;
use vstd::utf8::*;
use crate::error::{Error, InstallStage, InstallationError};
use crate::text::{byte_len, in_text, is_in_text, lemma_single_byte_boundaries, push_text, slice};

verus! {

/// The command that compiles a fetched grammar into a loadable library.
pub const BUILD_CMD: &'static str = "cargo rustc --crate-type=dylib --release";

/// The grammars that can be installed by name.
#[derive(Clone, Copy, Debug, PartialEq, Eq, Structural)]
pub enum SupportedParser {
    Rust,
    TypeScript,
    TSX,
    Svelte,
    Python,
}

/// The languages whose grammar is known without naming it.
#[derive(Clone, Copy, Debug, PartialEq, Eq, Structural)]
pub enum SupportedLanguage {
    Rust,
}

/// How to get one grammar: the command that fetches it, the entry symbol of
/// its library and the name of that library.
#[derive(Clone, Debug, PartialEq, Eq)]
pub struct ParserInstaller {
    pub download_cmd: String,
    pub symbol: Vec<u8>,
    pub name: String,
}

/// A stage of an installation, with a line of progress where it has one.
#[derive(Clone, Debug, PartialEq, Eq)]
pub enum InstallationStatus {
    Downloading(String),
    Patching,
    Compiling(String),
}

/// What to install: the command that fetches the grammar, the name of its
/// library and the directory that it is installed in.
#[derive(Clone, Debug, PartialEq, Eq)]
pub struct InstallLanguageArgs {
    pub download_cmd: String,
    pub library_name: String,
    pub install_dir: String,
}

/// One step of an installation.
#[derive(Clone, Debug, PartialEq, Eq)]
pub enum InstallStep {
    /// Tell the caller which stage has been reached.
    Report(InstallationStatus),
    /// Run the fetching command with the install directory as its last argument.
    Download { program: String, arguments: Vec<String> },
    /// Mark the entry function of the fetched grammar for export.
    Patch,
    /// Run the compiling command inside the install directory.
    Compile { program: String, arguments: Vec<String> },
    /// Give up with a reason.
    Fail(String),
}

fn installer(download_cmd: &str, symbol: &str, name: &str) -> (r: ParserInstaller)
    ensures
        r.download_cmd@ == download_cmd@,
        r.symbol@ == symbol.spec_bytes(),
        r.name@ == name@,
{
    ParserInstaller {
        download_cmd: download_cmd.to_owned(),
        symbol: symbol.as_bytes_vec(),
        name: name.to_owned(),
    }
}

impl SupportedParser {
    /// The command that fetches the grammar.
    pub open spec fn download_cmd(self) -> Seq<char> {
        match self {
            SupportedParser::Rust => "git clone https://github.com/tree-sitter/tree-sitter-rust"@,
            SupportedParser::TypeScript =>
                "git clone https://github.com/tree-sitter/tree-sitter-typescript"@,
            SupportedParser::TSX =>
                "git clone https://github.com/tree-sitter/tree-sitter-typescript"@,
            SupportedParser::Svelte => "git clone https://github.com/Himujjal/tree-sitter-svelte"@,
            SupportedParser::Python => "git clone https://github.com/tree-sitter/tree-sitter-python"@,
        }
    }

    /// The entry symbol of the grammar's library.
    pub open spec fn symbol(self) -> Seq<char> {
        match self {
            SupportedParser::Rust => "language"@,
            SupportedParser::TypeScript => "language_typescript"@,
            SupportedParser::TSX => "language_tsx"@,
            SupportedParser::Svelte => "language"@,
            SupportedParser::Python => "language"@,
        }
    }

    /// The name of the grammar's library.
    pub open spec fn library_name(self) -> Seq<char> {
        match self {
            SupportedParser::Rust => "tree_sitter_rust"@,
            SupportedParser::TypeScript => "tree_sitter_typescript"@,
            SupportedParser::TSX => "tree_sitter_typescript"@,
            SupportedParser::Svelte => "tree_sitter_svelte"@,
            SupportedParser::Python => "tree_sitter_python"@,
        }
    }

    /// How to get the grammar.
    pub fn get_installer(&self) -> (r: ParserInstaller)
        ensures
            r.download_cmd@ == self.download_cmd(),
            r.symbol@ == encode_utf8(self.symbol()),
            r.name@ == self.library_name(),
    {
        match self {
            SupportedParser::Rust => installer(
                "git clone https://github.com/tree-sitter/tree-sitter-rust",
                "language",
                "tree_sitter_rust",
            ),
            SupportedParser::TypeScript => installer(
                "git clone https://github.com/tree-sitter/tree-sitter-typescript",
                "language_typescript",
                "tree_sitter_typescript",
            ),
            SupportedParser::TSX => installer(
                "git clone https://github.com/tree-sitter/tree-sitter-typescript",
                "language_tsx",
                "tree_sitter_typescript",
            ),
            SupportedParser::Svelte => installer(
                "git clone https://github.com/Himujjal/tree-sitter-svelte",
                "language",
                "tree_sitter_svelte",
            ),
            SupportedParser::Python => installer(
                "git clone https://github.com/tree-sitter/tree-sitter-python",
                "language",
                "tree_sitter_python",
            ),
        }
    }
}

impl SupportedLanguage {
    /// The grammar that the language is parsed with.
    pub open spec fn parser(self) -> SupportedParser {
        match self {
            SupportedLanguage::Rust => SupportedParser::Rust,
        }
    }

    /// How to get the grammar of the language.
    pub fn get_installer(&self) -> (r: ParserInstaller)
        ensures
            r.download_cmd@ == self.parser().download_cmd(),
            r.symbol@ == encode_utf8(self.parser().symbol()),
            r.name@ == self.parser().library_name(),
    {
        match self {
            SupportedLanguage::Rust => SupportedParser::Rust.get_installer(),
        }
    }
}

/// A byte that separates the words of a command: a space, a tab, a line
/// feed, a form feed or a carriage return.
pub open spec fn is_space(byte: u8) -> bool {
    byte == 0x20 || byte == 0x09 || byte == 0x0a || byte == 0x0c || byte == 0x0d
}

/// The first place at or after `from` that holds no space, or the end.
pub open spec fn word_start(s: Seq<u8>, from: int) -> int
    decreases s.len() - from,
{
    if from < 0 || from >= s.len() {
        s.len() as int
    } else if is_space(s[from]) {
        word_start(s, from + 1)
    } else {
        from
    }
}

/// The first place at or after `from` that holds a space, or the end.
pub open spec fn word_end(s: Seq<u8>, from: int) -> int
    decreases s.len() - from,
{
    if from < 0 || from >= s.len() {
        s.len() as int
    } else if is_space(s[from]) {
        from
    } else {
        word_end(s, from + 1)
    }
}

/// The words of `s` at and after `from`: the longest runs of bytes that are
/// not spaces, in order.
pub open spec fn words_from(s: Seq<u8>, from: int) -> Seq<Seq<u8>>
    decreases s.len() - from,
    via words_from_decreases
{
    let start = word_start(s, from);
    if from < 0 || start >= s.len() {
        Seq::empty()
    } else {
        let end = word_end(s, start);
        seq![s.subrange(start, end)] + words_from(s, end)
    }
}

#[via_fn]
proof fn words_from_decreases(s: Seq<u8>, from: int) {
    if from >= 0 {
        lemma_word_start(s, from);
        let start = word_start(s, from);
        if start < s.len() {
            lemma_word_end(s, start);
        }
    }
}

/// The words of a command, each as the bytes of its text.
pub open spec fn words(s: Seq<u8>) -> Seq<Seq<u8>> {
    words_from(s, 0)
}

proof fn lemma_word_start(s: Seq<u8>, from: int)
    requires
        0 <= from,
    ensures
        from <= word_start(s, from) || word_start(s, from) == s.len(),
        word_start(s, from) <= s.len(),
        word_start(s, from) < s.len() ==> !is_space(s[word_start(s, from)]),
    decreases s.len() - from,
{
    if from < s.len() && is_space(s[from]) {
        lemma_word_start(s, from + 1);
    }
}

proof fn lemma_word_end(s: Seq<u8>, from: int)
    requires
        0 <= from < s.len(),
        !is_space(s[from]),
    ensures
        from < word_end(s, from) <= s.len(),
    decreases s.len() - from,
{
    assert(word_end(s, from) == word_end(s, from + 1));
    if from + 1 < s.len() && !is_space(s[from + 1]) {
        lemma_word_end(s, from + 1);
    } else if from + 1 < s.len() {
        assert(word_end(s, from + 1) == from + 1);
    } else {
        assert(word_end(s, from + 1) == s.len());
    }
}

fn is_space_byte(byte: u8) -> (b: bool)
    ensures
        b == is_space(byte),
{
    byte == 0x20 || byte == 0x09 || byte == 0x0a || byte == 0x0c || byte == 0x0d
}

/// The model of a sequence of strings: their characters.
pub open spec fn texts(v: Seq<String>) -> Seq<Seq<char>> {
    Seq::new(v.len(), |i: int| v[i]@)
}

/// The bytes of each of a sequence of strings.
pub open spec fn encodings(v: Seq<String>) -> Seq<Seq<u8>> {
    Seq::new(v.len(), |i: int| encode_utf8(v[i]@))
}

/// Splits a command into its words.
pub fn split_command(command: &str) -> (found: Vec<String>)
    ensures
        encodings(found@) == words(command.spec_bytes()),
{
    let bytes = command.as_bytes();
    let len = bytes.len();
    let mut found: Vec<String> = Vec::new();
    let mut at: usize = 0;
    assert(encodings(found@) =~= Seq::<Seq<u8>>::empty());
    proof {
        encode_utf8_valid_utf8(command@);
        is_char_boundary_start_end_of_seq(command.spec_bytes());
    }
    loop
        invariant
            bytes@ == command.spec_bytes(),
            valid_utf8(bytes@),
            len == bytes@.len(),
            at <= len,
            is_char_boundary(bytes@, at as int),
            is_char_boundary(bytes@, len as int),
            words(bytes@) == encodings(found@) + words_from(bytes@, at as int),
        decreases len - at,
    {
        let mut start = at;
        while start < len && is_space_byte(bytes[start])
            invariant
                valid_utf8(bytes@),
                len == bytes@.len(),
                at <= start <= len,
                is_char_boundary(bytes@, start as int),
                word_start(bytes@, at as int) == word_start(bytes@, start as int),
            decreases len - start,
        {
            proof {
                lemma_single_byte_boundaries(bytes@, start as int);
            }
            start += 1;
        }
        if start >= len {
            assert(words_from(bytes@, at as int) =~= Seq::<Seq<u8>>::empty());
            assert(encodings(found@) + Seq::<Seq<u8>>::empty() =~= encodings(found@));
            return found;
        }
        let mut end = start;
        while end < len && !is_space_byte(bytes[end])
            invariant
                len == bytes@.len(),
                start <= end <= len,
                word_end(bytes@, start as int) == word_end(bytes@, end as int),
            decreases len - end,
        {
            end += 1;
        }
        proof {
            lemma_word_end(bytes@, start as int);
            if end < len {
                lemma_single_byte_boundaries(bytes@, end as int);
            }
        }
        let word = slice(command, start, end).to_owned();
        let ghost before = found@;
        found.push(word);
        assert(encodings(found@) =~= encodings(before) + seq![
            bytes@.subrange(start as int, end as int),
        ]);
        assert(words_from(bytes@, at as int) =~= seq![bytes@.subrange(start as int, end as int)]
            + words_from(bytes@, end as int));
        at = end;
    }
}

/// The step reports the stage of fetching with the given line.
pub open spec fn reports_downloading(step: InstallStep, line: Seq<char>) -> bool {
    step matches InstallStep::Report(InstallationStatus::Downloading(said)) && said@ == line
}

/// The step reports the stage of compiling with the given line.
pub open spec fn reports_compiling(step: InstallStep, line: Seq<char>) -> bool {
    step matches InstallStep::Report(InstallationStatus::Compiling(said)) && said@ == line
}

/// The step runs the first of the words with the others as its arguments, to fetch.
pub open spec fn downloads_with(step: InstallStep, command: Seq<Seq<u8>>) -> bool {
    step matches InstallStep::Download { program, arguments } && command.len() > 0
        && encode_utf8(program@) == command[0] && encodings(arguments@) == command.skip(1)
}

/// The step runs the first of the words with the others as its arguments, to compile.
pub open spec fn compiles_with(step: InstallStep, command: Seq<Seq<u8>>) -> bool {
    step matches InstallStep::Compile { program, arguments } && command.len() > 0
        && encode_utf8(program@) == command[0] && encodings(arguments@) == command.skip(1)
}

/// The plan that installs a grammar fetched by `command`: fetch, patch and
/// compile, each announced before it starts. A command without a word
/// makes the plan fail right after it has announced the fetching.
pub open spec fn is_install_plan(plan: Seq<InstallStep>, command: Seq<u8>) -> bool {
    if words(command).len() == 0 {
        &&& plan.len() == 2
        &&& reports_downloading(plan[0], "Start"@)
        &&& plan[1] matches InstallStep::Fail(reason) && reason@ == "got empty download command"@
    } else {
        &&& plan.len() == 7
        &&& reports_downloading(plan[0], "Start"@)
        &&& downloads_with(plan[1], words(command))
        &&& reports_downloading(plan[2], "Done"@)
        &&& plan[3] == InstallStep::Report(InstallationStatus::Patching)
        &&& plan[4] == InstallStep::Patch
        &&& reports_compiling(plan[5], "Start"@)
        &&& compiles_with(plan[6], words(encode_utf8(BUILD_CMD@)))
    }
}

/// The program and the arguments of a command, where it has a word.
fn program_and_arguments(command: &str) -> (r: Option<(String, Vec<String>)>)
    ensures
        r is None <==> words(command.spec_bytes()).len() == 0,
        r matches Some((program, arguments)) ==> encode_utf8(program@) == words(
            command.spec_bytes(),
        )[0] && encodings(arguments@) == words(command.spec_bytes()).skip(1),
{
    let mut found = split_command(command);
    if found.len() == 0 {
        assert(encodings(found@).len() == 0);
        return None;
    }
    let ghost all = found@;
    assert(encodings(all).len() == all.len());
    let program = found.remove(0);
    assert(encode_utf8(program@) == encodings(all)[0]);
    assert(encodings(found@) =~= encodings(all).skip(1));
    Some((program, found))
}

/// The steps that install a grammar fetched by `download_cmd`.
pub fn install_parser(download_cmd: &str) -> (plan: Vec<InstallStep>)
    ensures
        is_install_plan(plan@, download_cmd.spec_bytes()),
{
    let mut plan: Vec<InstallStep> = Vec::new();
    plan.push(InstallStep::Report(InstallationStatus::Downloading("Start".to_owned())));
    match program_and_arguments(download_cmd) {
        None => {
            plan.push(InstallStep::Fail("got empty download command".to_owned()));
        },
        Some((program, arguments)) => {
            plan.push(InstallStep::Download { program, arguments });
            plan.push(InstallStep::Report(InstallationStatus::Downloading("Done".to_owned())));
            plan.push(InstallStep::Report(InstallationStatus::Patching));
            plan.push(InstallStep::Patch);
            plan.push(InstallStep::Report(InstallationStatus::Compiling("Start".to_owned())));
            match program_and_arguments(BUILD_CMD) {
                Some((program, arguments)) => {
                    plan.push(InstallStep::Compile { program, arguments });
                },
                None => {
                    proof {
                        lemma_build_command_has_a_word();
                    }
                },
            }
        },
    }
    plan
}

proof fn lemma_build_command_has_a_word()
    ensures
        words(encode_utf8(BUILD_CMD@)).len() > 0,
{
    reveal_strlit("cargo rustc --crate-type=dylib --release");
    let chars = BUILD_CMD@;
    let s = encode_utf8(chars);
    assert(chars[0] == 'c');
    assert(s[0] == 0x63 && s.len() > 0) by {
        assert('c' as u32 == 0x63u32);
        assert((0x63u32 & 0x7F) as u8 == 0x63u8) by (bit_vector);
        assert(encode_scalar(chars[0] as u32) =~= seq![0x63u8]);
    }
    assert(word_start(s, 0) == 0);
    lemma_word_end(s, 0);
}

/// The steps that bring a grammar into place: none where its library is
/// installed already, else those that install it.
pub fn install_language(args: &InstallLanguageArgs, installed: bool) -> (plan: Vec<InstallStep>)
    ensures
        installed ==> plan@.len() == 0,
        !installed ==> is_install_plan(plan@, encode_utf8(args.download_cmd@)),
{
    if installed {
        Vec::new()
    } else {
        install_parser(args.download_cmd.as_str())
    }
}

/// The declaration of the entry function in the bindings of a grammar.
pub const ENTRY_FN: &'static str = "pub fn language";

/// The attribute that keeps the name of the entry function in the library.
pub const NO_MANGLE: &'static str = "#[no_mangle]\n";

/// `pattern` stands in `text` at place `at`, between two characters.
pub open spec fn occurs_at(text: Seq<u8>, at: int, pattern: Seq<u8>) -> bool {
    in_text(text, at, at + pattern.len()) && text.subrange(at, at + pattern.len()) == pattern
}

/// The bytes of `text` from place `from` on, with `mark` put before each
/// place at which `pattern` stands. The places are taken from left to
/// right, and the next one is looked for behind the pattern.
pub open spec fn marked_from(text: Seq<u8>, from: int, pattern: Seq<u8>, mark: Seq<u8>) -> Seq<u8>
    decreases text.len() - from,
{
    if from < 0 || from >= text.len() {
        Seq::empty()
    } else if pattern.len() > 0 && occurs_at(text, from, pattern) {
        mark + pattern + marked_from(text, from + pattern.len(), pattern, mark)
    } else {
        seq![text[from]] + marked_from(text, from + 1, pattern, mark)
    }
}

/// The bindings of a grammar with its entry function kept for export.
pub open spec fn exported(source: Seq<u8>) -> Seq<u8> {
    marked_from(source, 0, encode_utf8(ENTRY_FN@), encode_utf8(NO_MANGLE@))
}

/// Whether `pattern` stands in `text` at place `at`.
fn stands_at(text: &str, at: usize, pattern: &str) -> (b: bool)
    ensures
        b == occurs_at(text.spec_bytes(), at as int, pattern.spec_bytes()),
{
    let bytes = text.as_bytes();
    let wanted = pattern.as_bytes();
    if at > bytes.len() || wanted.len() > bytes.len() - at {
        return false;
    }
    if !is_in_text(text, at, at + wanted.len()) {
        return false;
    }
    let mut j: usize = 0;
    while j < wanted.len()
        invariant
            bytes@ == text.spec_bytes(),
            wanted@ == pattern.spec_bytes(),
            at + wanted@.len() <= bytes@.len() <= usize::MAX,
            j <= wanted@.len(),
            bytes@.subrange(at as int, at + j) == wanted@.subrange(0, j as int),
        decreases wanted@.len() - j,
    {
        if bytes[at + j] != wanted[j] {
            assert(bytes@.subrange(at as int, at + wanted@.len())[j as int] != wanted@[j as int]);
            return false;
        }
        assert(bytes@.subrange(at as int, at + j + 1) =~= bytes@.subrange(at as int, at + j).push(
            bytes@[at + j],
        ));
        assert(wanted@.subrange(0, j + 1) =~= wanted@.subrange(0, j as int).push(wanted@[j as int]));
        j += 1;
    }
    assert(wanted@.subrange(0, j as int) =~= wanted@);
    true
}

proof fn lemma_marked_skips(text: Seq<u8>, from: int, to: int, pattern: Seq<u8>, mark: Seq<u8>)
    requires
        0 <= from <= to <= text.len(),
        forall|k: int| from <= k < to ==> !(pattern.len() > 0 && occurs_at(text, k, pattern)),
    ensures
        marked_from(text, from, pattern, mark) == text.subrange(from, to) + marked_from(
            text,
            to,
            pattern,
            mark,
        ),
    decreases to - from,
{
    if from < to {
        lemma_marked_skips(text, from + 1, to, pattern, mark);
        assert(text.subrange(from, to) =~= seq![text[from]] + text.subrange(from + 1, to));
        assert(marked_from(text, from, pattern, mark) =~= text.subrange(from, to) + marked_from(
            text,
            to,
            pattern,
            mark,
        ));
    } else {
        assert(text.subrange(from, to) + marked_from(text, to, pattern, mark) =~= marked_from(
            text,
            to,
            pattern,
            mark,
        ));
    }
}

/// Puts `mark` before each place of `source` at which `pattern` stands.
pub fn mark_each(source: &str, pattern: &str, mark: &str) -> (marked: String)
    ensures
        encode_utf8(marked@) == marked_from(
            source.spec_bytes(),
            0,
            pattern.spec_bytes(),
            mark.spec_bytes(),
        ),
{
    let len = byte_len(source);
    let pattern_len = byte_len(pattern);
    let ghost text = source.spec_bytes();
    let ghost wanted = pattern.spec_bytes();
    let ghost sign = mark.spec_bytes();
    let mut marked = String::new();
    let mut copied: usize = 0;
    let mut at: usize = 0;
    proof {
        encode_utf8_valid_utf8(source@);
        is_char_boundary_start_end_of_seq(text);
        assert(encode_utf8(marked@) =~= Seq::<u8>::empty());
        assert(encode_utf8(marked@) + marked_from(text, 0, wanted, sign) =~= marked_from(
            text,
            0,
            wanted,
            sign,
        ));
    }
    while at < len
        invariant
            text == source.spec_bytes(),
            wanted == pattern.spec_bytes(),
            sign == mark.spec_bytes(),
            len == text.len(),
            pattern_len == wanted.len(),
            copied <= at <= len,
            is_char_boundary(text, copied as int),
            is_char_boundary(text, len as int),
            forall|k: int| copied <= k < at ==> !(wanted.len() > 0 && occurs_at(text, k, wanted)),
            marked_from(text, 0, wanted, sign) == encode_utf8(marked@) + marked_from(
                text,
                copied as int,
                wanted,
                sign,
            ),
        decreases len - at,
    {
        if pattern_len > 0 && stands_at(source, at, pattern) {
            proof {
                lemma_marked_skips(text, copied as int, at as int, wanted, sign);
            }
            let ghost before = encode_utf8(marked@);
            push_text(&mut marked, slice(source, copied, at));
            push_text(&mut marked, mark);
            push_text(&mut marked, pattern);
            assert(encode_utf8(marked@) =~= before + text.subrange(copied as int, at as int) + sign
                + wanted);
            assert(before + marked_from(text, copied as int, wanted, sign) =~= encode_utf8(
                marked@,
            ) + marked_from(text, at + pattern_len, wanted, sign));
            at = at + pattern_len;
            copied = at;
        } else {
            at += 1;
        }
    }
    proof {
        lemma_marked_skips(text, copied as int, len as int, wanted, sign);
    }
    let ghost before = encode_utf8(marked@);
    push_text(&mut marked, slice(source, copied, len));
    assert(encode_utf8(marked@) =~= before + (text.subrange(copied as int, len as int)
        + marked_from(text, len as int, wanted, sign)));
    marked
}

/// The bindings of a grammar with `#[no_mangle]` put on a line of its own
/// before each declaration of the entry function, so that the compiled
/// library exports the function under its name.
pub fn disable_language_fn_mangle(source: &str) -> (patched: String)
    ensures
        encode_utf8(patched@) == exported(source.spec_bytes()),
{
    mark_each(source, ENTRY_FN, NO_MANGLE)
}

/// The lines put together, with a line feed between each two.
pub open spec fn joined(lines: Seq<Seq<char>>) -> Seq<char>
    decreases lines.len(),
{
    if lines.len() == 0 {
        Seq::empty()
    } else if lines.len() == 1 {
        lines[0]
    } else {
        joined(lines.drop_last()) + seq!['\n'] + lines.last()
    }
}

/// Puts the lines together, with a line feed between each two.
pub fn join_lines(lines: &Vec<String>) -> (text: String)
    ensures
        text@ == joined(texts(lines@)),
{
    let mut text = String::new();
    let mut i: usize = 0;
    while i < lines.len()
        invariant
            i <= lines@.len(),
            text@ == joined(texts(lines@).take(i as int)),
        decreases lines@.len() - i,
    {
        let ghost before = texts(lines@).take(i as int);
        let ghost until = texts(lines@).take(i + 1);
        assert(until.drop_last() =~= before);
        assert(until.last() == lines@[i as int]@);
        if i > 0 {
            text.append("\n");
            proof {
                reveal_strlit("\n");
                assert("\n"@ =~= seq!['\n']);
            }
        }
        text.append(lines[i].as_str());
        i += 1;
    }
    assert(texts(lines@).take(i as int) =~= texts(lines@));
    text
}

/// The error of an installation that failed at `stage`, with the lines
/// that the failing command printed.
pub fn installation_error(stage: InstallStage, lines: &Vec<String>) -> (error: Error)
    ensures
        error matches Error::InstallationError(failed) && failed.stage == stage && failed.output@
            == joined(texts(lines@)),
{
    Error::InstallationError(InstallationError { stage, output: join_lines(lines) })
}

/// The line that announces the fetching command.
pub open spec fn spec_running_line(download_cmd: Seq<char>, install_dir: Seq<char>) -> Seq<char> {
    "Running command '"@ + download_cmd + " "@ + install_dir + "'"@
}

/// The line that announces the fetching command: the command and the
/// directory that it fetches into.
pub fn running_line(download_cmd: &str, install_dir: &str) -> (line: String)
    ensures
        line@ == spec_running_line(download_cmd@, install_dir@),
{
    let mut line = "Running command '".to_owned();
    line.append(download_cmd);
    line.append(" ");
    line.append(install_dir);
    line.append("'");
    line
}

/// Where the compiled library of a grammar lies below the directory that
/// the grammar is installed in, part by part: `target`, `release`, and the
/// name of the library between the prefix and the suffix that the platform
/// gives to libraries.
pub fn get_compiled_lib_path(library_name: &str, dll_prefix: &str, dll_suffix: &str) -> (parts:
    Vec<String>)
    ensures
        texts(parts@) == seq!["target"@, "release"@, dll_prefix@ + library_name@ + dll_suffix@],
{
    let mut file = dll_prefix.to_owned();
    file.append(library_name);
    file.append(dll_suffix);
    let mut parts: Vec<String> = Vec::new();
    parts.push("target".to_owned());
    parts.push("release".to_owned());
    parts.push(file);
    assert(texts(parts@) =~= seq![
        "target"@,
        "release"@,
        dll_prefix@ + library_name@ + dll_suffix@,
    ]);
    parts
}

} // verus!
